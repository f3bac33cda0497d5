//! A graph with its changes as one graph again, and its indexes on properties.

use vstd::prelude::*;

use std::collections::HashMap;

use super::lazy::LazyGraphStore;
use super::pager::{Pager, StoreError};
use super::save_all::save_graph_with_catalog_and_indexes;
use super::secondary_index::{IndexKind, IndexSpec, SecondaryIndex};
use super::secondary_index_io::DeclaredSpec;
use crate::model::graph::MemoryGraphStore;
use crate::model::graph_access::{all_edges, EdgeView, GraphAccess, GraphModel, NodeView};
use crate::model::value::Id;

verus! {

/// The listed nodes, with their positions as new ids.
pub open spec fn compact_nodes(m: GraphModel) -> Seq<NodeView> {
    Seq::new(m.node_ids.len(), |i: int| m.nodes[m.node_ids[i]])
}

/// An edge with new ids of its ends.
pub open spec fn moved_edge(m: GraphModel, id: Id) -> EdgeView {
    EdgeView {
        src: m.node_ids.index_of(m.edges[id].src) as Id,
        tgt: m.node_ids.index_of(m.edges[id].tgt) as Id,
        ..m.edges[id]
    }
}

/// Both ends of an edge are listed.
pub open spec fn ends_listed(m: GraphModel, id: Id) -> bool {
    m.node_ids.contains(m.edges[id].src) && m.node_ids.contains(m.edges[id].tgt)
}

/// The edges between listed nodes, with new ids of their ends.
pub open spec fn compact_edges(m: GraphModel, ids: Seq<Id>) -> Seq<EdgeView>
    decreases ids.len(),
{
    if ids.len() == 0 {
        Seq::empty()
    } else {
        let rest = compact_edges(m, ids.drop_last());
        if ends_listed(m, ids.last()) {
            rest.push(moved_edge(m, ids.last()))
        } else {
            rest
        }
    }
}

proof fn position(s: Seq<Id>, i: int)
    requires
        s.no_duplicates(),
        0 <= i < s.len(),
    ensures
        s.index_of(s[i]) == i,
{
    assert(s.contains(s[i]));
    let j = s.index_of(s[i]);
    assert(0 <= j < s.len() && s[j] == s[i]);
}

impl LazyGraphStore {
    /// The graph as it is now, without gaps in its ids: nodes and edges that are
    /// deleted are gone, and so are edges that have lost an end.
    pub fn materialize_to_graph(&self) -> (r: MemoryGraphStore)
        requires
            self.sound(),
        ensures
            r.wf(),
            r.node_seq() == compact_nodes(self.model()),
            r.edge_seq() == compact_edges(self.model(), self.model().edge_ids()),
            super::compaction_laws::keeps_graph(self.model(), r.node_seq(), r.edge_seq()),
    {
        let ghost m = self.model();
        let ids = self.nodes();
        let ghost list = ids@;
        proof {
            self.sound_model();
            super::lazy_writes::live_ids_rise(
                self.overlay.node_total() as nat,
                self.overlay.deleted_nodes@,
            );
            super::lazy_writes::live_edges_len(self.directions(), self.overlay.deleted_edges@);
            assert(list.no_duplicates());
        }
        let mut places: HashMap<u32, u32> = HashMap::new();
        let mut g = MemoryGraphStore::new();
        let mut i: usize = 0;
        assert(g.node_seq() =~= compact_nodes(m).take(0));
        proof {
            broadcast use vstd::std_specs::hash::group_hash_axioms;

            assert(places@.dom() =~= list.take(0).to_set());
        }
        while i < ids.len()
            invariant
                i <= ids.len() <= u32::MAX,
                self.sound(),
                m == self.model(),
                m.well_formed(),
                list == ids@,
                list == m.node_ids,
                list.no_duplicates(),
                g.wf(),
                g.node_names@.len() == i,
                g.edge_seq() == Seq::<EdgeView>::empty(),
                g.node_seq() == compact_nodes(m).take(i as int),
                places@.dom() == list.take(i as int).to_set(),
                forall|j: int| 0 <= j < i ==> places@[#[trigger] list[j]] == j,
            decreases ids.len() - i,
        {
            broadcast use vstd::std_specs::hash::group_hash_axioms;

            let id = ids[i];
            assert(m.nodes.contains_key(m.node_ids[i as int]));
            let ghost before = places@;
            let _ = places.insert(id, i as u32);
            let ghost had = g.node_seq();
            let _ = g.push_node(self.node_name(id), self.node_labels(id), self.node_props(id));
            proof {
                assert(compact_nodes(m).take(i + 1) =~= compact_nodes(m).take(i as int).push(
                    m.nodes[id],
                ));
                assert(g.node_seq() =~= had.push(m.nodes[id]));
                assert(list.take(i + 1) =~= list.take(i as int).push(id));
                assert forall|x: Id| #[trigger]
                    list.take(i + 1).to_set().contains(x) <==> list.take(
                        i as int,
                    ).to_set().insert(id).contains(x) by {
                    super::lazy_writes::pushed_id(list.take(i as int), id, x);
                }
                assert(places@.dom() =~= list.take(i + 1).to_set());
                assert forall|j: int| 0 <= j < i + 1 implies places@[#[trigger] list[j]] == j by {
                    if j < i {
                        assert(list[j] != list[i as int]);
                        assert(before[list[j]] == j);
                    }
                }
            }
            i = i + 1;
        }
        proof {
            assert(compact_nodes(m).take(i as int) =~= compact_nodes(m));
            assert(list.take(i as int) =~= list);
        }
        let edges = all_edges(self);
        let ghost eids = edges@;
        let ghost node_len = g.node_names@.len();
        let mut k: usize = 0;
        assert(compact_edges(m, eids.take(0)) =~= Seq::empty());
        while k < edges.len()
            invariant
                k <= edges.len() <= u32::MAX,
                self.sound(),
                m == self.model(),
                m.well_formed(),
                eids == edges@,
                eids == m.edge_ids(),
                list == m.node_ids,
                list.no_duplicates(),
                node_len == list.len(),
                g.wf(),
                g.node_names@.len() == node_len,
                g.node_seq() == compact_nodes(m),
                g.edge_names@.len() <= k,
                g.edge_seq() == compact_edges(m, eids.take(k as int)),
                places@.dom() == list.to_set(),
                forall|j: int| 0 <= j < list.len() ==> places@[#[trigger] list[j]] == j,
            decreases edges.len() - k,
        {
            broadcast use vstd::std_specs::hash::group_hash_axioms;

            let id = edges[k];
            proof {
                assert(eids.take(k + 1).drop_last() =~= eids.take(k as int));
                assert(eids.take(k + 1).last() == id);
                assert(m.edge_known(m.edge_ids()[k as int]));
            }
            let src = self.src(id);
            let tgt = self.tgt(id);
            let ghost had = g.edge_seq();
            proof {
                assert(places@.contains_key(src) <==> list.to_set().contains(src));
                assert(places@.contains_key(tgt) <==> list.to_set().contains(tgt));
            }
            match places.get(&src) {
                Some(s) => match places.get(&tgt) {
                    Some(t) => {
                        proof {
                            let a = choose|a: int| 0 <= a < list.len() && list[a] == src;
                            let b = choose|b: int| 0 <= b < list.len() && list[b] == tgt;
                            position(list, a);
                            position(list, b);
                            assert(places@[list[a]] == a && places@[list[b]] == b);
                            assert(ends_listed(m, id));
                        }
                        let directed = self.is_directed(id);
                        let _ = g.push_edge(
                            self.edge_name(id),
                            self.edge_labels(id),
                            self.edge_props(id),
                            *s,
                            *t,
                            directed,
                        );
                        assert(g.edge_seq() =~= had.push(moved_edge(m, id)));
                    },
                    None => {
                        assert(!ends_listed(m, id));
                    },
                },
                None => {
                    assert(!ends_listed(m, id));
                },
            }
            assert(g.node_seq().len() == g.node_names@.len());
            k = k + 1;
        }
        assert(eids.take(k as int) =~= eids);
        proof {
            super::compaction_laws::compaction_keeps_graph(m);
        }
        g
    }

    /// Saves the graph as it is now to a new file, which takes the place of
    /// `pager`, together with the bytes of its catalog and, where there are any,
    /// those of its declared indexes.
    pub fn save(&self, catalog: &Vec<u8>, specs: Option<&Vec<u8>>, pager: &mut Pager) -> (r: Result<
        (),
        StoreError,
    >)
        requires
            self.sound(),
        ensures
            super::save_all::save_outcome(
                compact_nodes(self.model()),
                compact_edges(self.model(), self.model().edge_ids()),
                catalog@,
                super::save_all::optional_bytes(specs),
                *final(pager),
                r,
            ),
    {
        let g = self.materialize_to_graph();
        save_graph_with_catalog_and_indexes(&g, catalog, specs, pager)
    }

    /// Makes an index on a property of the nodes that are there now.
    pub fn declare_index(&mut self, name: String, label: &str, prop: &str, kind: IndexKind) -> (r:
        Result<IndexSpec, String>)
        requires
            old(self).sound(),
        ensures
            final(self).sound(),
            final(self).model() == old(self).model(),
            final(self).base == old(self).base,
            final(self).overlay == old(self).overlay,
            match r {
                Ok(spec) => {
                    let m = old(self).model();
                    &&& old(self).secondary.of_kind(kind, label@, prop@) is None
                    &&& final(self).secondary.of_kind(kind, label@, prop@) is Some
                    &&& final(self).secondary.of_kind(kind, label@, prop@)->Some_0.holds(
                        super::secondary_index::label_items(m, m.node_ids, label@, prop@),
                    )
                    &&& forall|q: IndexKind, l: Seq<char>, p: Seq<char>|
                        !(q == kind && l == label@ && p == prop@)
                            ==> #[trigger] final(self).secondary.of_kind(q, l, p) == old(
                            self).secondary.of_kind(q, l, p)
                    &&& spec@ == made_spec(name@, label@, prop@, kind, final(self).secondary)
                    &&& super::secondary_index::spec_views(final(self).secondary.specs@)
                        == super::secondary_index::spec_views(old(self).secondary.specs@).push(
                        spec@,
                    )
                },
                Err(text) => {
                    &&& old(self).secondary.of_kind(kind, label@, prop@) is Some
                    &&& text@ == super::secondary_index::exists_text(label@, prop@, kind)
                    &&& final(self).secondary == old(self).secondary
                },
            },
    {
        let mut idx = SecondaryIndex::new();
        std::mem::swap(&mut idx, &mut self.secondary);
        let ghost was = idx;
        proof {
            assert(self.directions() == old(self).directions());
            assert(self.model() == old(self).model()) by {
                same_graph(self, old(self));
            }
        }
        let r = idx.build_declared(self, name, label, prop, kind);
        let ghost m0 = self.model();
        let ghost mid = *self;
        self.secondary = idx;
        proof {
            same_graph(self, &mid);
        }
        r
    }

    /// Makes declared indexes again. One whose kind is there already for its
    /// label and property is passed over.
    pub fn replay_declared(&mut self, specs: Vec<DeclaredSpec>)
        requires
            old(self).sound(),
        ensures
            final(self).sound(),
            final(self).model() == old(self).model(),
            final(self).base == old(self).base,
            final(self).overlay == old(self).overlay,
            declared_on(
                old(self).secondary,
                final(self).secondary,
                specs@,
                old(self).model(),
            ),
            super::secondary_index::spec_views(final(self).secondary.specs@)
                == super::secondary_index::spec_views(old(self).secondary.specs@) + made_specs(
                old(self).secondary,
                final(self).secondary,
                specs@,
            ),
    {
        let ghost was = *self;
        let ghost had = super::secondary_index::spec_views(self.secondary.specs@);
        let mut i: usize = 0;
        assert(had + Seq::empty() =~= had);
        while i < specs.len()
            invariant
                i <= specs.len(),
                self.sound(),
                self.model() == was.model(),
                self.base == was.base,
                self.overlay == was.overlay,
                had == super::secondary_index::spec_views(was.secondary.specs@),
                declared_on(
                    was.secondary,
                    self.secondary,
                    specs@.take(i as int),
                    was.model(),
                ),
                super::secondary_index::spec_views(self.secondary.specs@) == had + made_specs(
                    was.secondary,
                    self.secondary,
                    specs@.take(i as int),
                ),
            decreases specs.len() - i,
        {
            let d = &specs[i];
            let ghost before = self.secondary;
            let ghost done = specs@.take(i as int);
            let ghost next = specs@.take(i + 1);
            let name = d.name.clone();
            self.add_declared(name, d.label.as_str(), d.prop.as_str(), d.kind);
            proof {
                assert(next.drop_last() =~= done);
                assert(next.last() == *d);
                assert forall|q: IndexKind, l: Seq<char>, p: Seq<char>| asked(next, q, l, p)
                    == (asked(done, q, l, p) || asks(*d, q, l, p)) by {
                    if asked(done, q, l, p) {
                        let j = choose|j: int| 0 <= j < done.len() && asks(#[trigger] done[j], q, l, p);
                        assert(asks(next[j], q, l, p));
                    }
                    if asks(*d, q, l, p) {
                        assert(asks(next[i as int], q, l, p));
                    }
                    if asked(next, q, l, p) {
                        let j = choose|j: int| 0 <= j < next.len() && asks(#[trigger] next[j], q, l, p);
                        if j < i {
                            assert(asks(done[j], q, l, p));
                        }
                    }
                }
                assert forall|j: int| 0 <= j < done.len() implies before.of_kind(
                    (#[trigger] done[j]).kind,
                    done[j].label@,
                    done[j].prop@,
                ) == self.secondary.of_kind(done[j].kind, done[j].label@, done[j].prop@) by {
                    assert(asks(done[j], done[j].kind, done[j].label@, done[j].prop@));
                    assert(asked(done, done[j].kind, done[j].label@, done[j].prop@));
                    assert(before.of_kind(done[j].kind, done[j].label@, done[j].prop@) is Some);
                }
                same_made(was.secondary, before, self.secondary, done);
                let made = made_specs(was.secondary, self.secondary, done);
                assert(before.of_kind(d.kind, d.label@, d.prop@) is Some
                    == (was.secondary.of_kind(d.kind, d.label@, d.prop@) is Some || asked(
                    done,
                    d.kind,
                    d.label@,
                    d.prop@,
                )));
                if before.of_kind(d.kind, d.label@, d.prop@) is None {
                    assert((had + made).push(
                        super::secondary_index::spec_views(self.secondary.specs@).last(),
                    ) =~= had + made.push(
                        super::secondary_index::spec_views(self.secondary.specs@).last(),
                    ));
                }
            }
            i = i + 1;
        }
        assert(specs@.take(i as int) =~= specs@);
    }

    fn add_declared(&mut self, name: String, label: &str, prop: &str, kind: IndexKind)
        requires
            old(self).sound(),
        ensures
            final(self).sound(),
            final(self).model() == old(self).model(),
            final(self).base == old(self).base,
            final(self).overlay == old(self).overlay,
            forall|q: IndexKind, l: Seq<char>, p: Seq<char>|
                !(q == kind && l == label@ && p == prop@ && old(self).secondary.of_kind(
                    q,
                    l,
                    p,
                ) is None) ==> (#[trigger] final(self).secondary.of_kind(q, l, p)) == old(
                    self).secondary.of_kind(q, l, p),
            old(self).secondary.of_kind(kind, label@, prop@) is Some ==> final(self).secondary
                == old(self).secondary,
            old(self).secondary.of_kind(kind, label@, prop@) is None ==> {
                &&& final(self).secondary.of_kind(kind, label@, prop@) is Some
                &&& final(self).secondary.of_kind(kind, label@, prop@)->Some_0.holds(
                    super::secondary_index::label_items(
                        old(self).model(),
                        old(self).model().node_ids,
                        label@,
                        prop@,
                    ),
                )
                &&& super::secondary_index::spec_views(final(self).secondary.specs@)
                    == super::secondary_index::spec_views(old(self).secondary.specs@).push(
                    made_spec(name@, label@, prop@, kind, final(self).secondary),
                )
            },
    {
        let mut idx = SecondaryIndex::new();
        std::mem::swap(&mut idx, &mut self.secondary);
        let ghost before = idx;
        proof {
            same_graph(self, old(self));
        }
        let _ = idx.build_declared(self, name, label, prop, kind);
        let ghost mid = *self;
        self.secondary = idx;
        proof {
            same_graph(self, &mid);
        }
    }
}

/// A graph that was saved with its changes is there again when the file is
/// opened: its nodes and edges as they come back from a file, in their order.
pub proof fn saved_reopens(
    m: GraphModel,
    catalog: Seq<u8>,
    specs: Option<Seq<u8>>,
    pager: Pager,
    infer: bool,
    r: Result<LazyGraphStore, StoreError>,
)
    requires
        super::save_all::save_outcome(
            compact_nodes(m),
            compact_edges(m, m.edge_ids()),
            catalog,
            specs,
            pager,
            Ok(()),
        ),
        super::lazy::open_outcome(pager, infer, r),
    ensures
        r is Ok,
        r->Ok_0.base.node_seq() == super::io::stored_nodes(compact_nodes(m)),
        r->Ok_0.base.edge_seq() == super::io::stored_edges(compact_edges(m, m.edge_ids())),
        r->Ok_0.overlay.is_clean(),
        r->Ok_0.indexed(),
{
    let nodes = super::io::stored_nodes(compact_nodes(m));
    let edges = super::io::stored_edges(compact_edges(m, m.edge_ids()));
    let strings = choose|strings: Seq<Seq<char>>| #[trigger]
        super::io::saved(pager@, pager.header, strings, nodes, edges);
    assert(super::io::saved(pager@, pager.header, strings, nodes, edges));
}

/// An index is the one that is declared.
pub open spec fn asks(d: DeclaredSpec, kind: IndexKind, label: Seq<char>, prop: Seq<char>) -> bool {
    d.kind == kind && d.label@ == label && d.prop@ == prop
}

/// An index is among those that are declared.
pub open spec fn asked(
    specs: Seq<DeclaredSpec>,
    kind: IndexKind,
    label: Seq<char>,
    prop: Seq<char>,
) -> bool {
    exists|i: int| 0 <= i < specs.len() && asks(#[trigger] specs[i], kind, label, prop)
}

/// The indexes after declaring some: those that were there stay, and those
/// that were not hold the nodes of the graph.
pub open spec fn declared_on(
    was: SecondaryIndex,
    now: SecondaryIndex,
    specs: Seq<DeclaredSpec>,
    m: GraphModel,
) -> bool {
    forall|kind: IndexKind, label: Seq<char>, prop: Seq<char>|
        if was.of_kind(kind, label, prop) is None && asked(specs, kind, label, prop) {
            (#[trigger] now.of_kind(kind, label, prop)) is Some && now.of_kind(
                kind,
                label,
                prop,
            )->Some_0.holds(
                super::secondary_index::label_items(m, m.node_ids, label, prop),
            )
        } else {
            now.of_kind(kind, label, prop) == was.of_kind(kind, label, prop)
        }
}

/// What is listed of a declared index.
pub open spec fn made_spec(
    name: Seq<char>,
    label: Seq<char>,
    prop: Seq<char>,
    kind: IndexKind,
    now: SecondaryIndex,
) -> super::secondary_index::SpecView {
    super::secondary_index::SpecView {
        name,
        label,
        prop,
        kind,
        auto: false,
        entries: now.of_kind(kind, label, prop)->Some_0@.len() as usize,
    }
}

/// What is listed of the indexes that were made: the first of each kind, label
/// and property for which there was none.
pub open spec fn made_specs(was: SecondaryIndex, now: SecondaryIndex, specs: Seq<DeclaredSpec>) -> Seq<
    super::secondary_index::SpecView,
>
    decreases specs.len(),
{
    if specs.len() == 0 {
        Seq::empty()
    } else {
        let rest = made_specs(was, now, specs.drop_last());
        let d = specs.last();
        if was.of_kind(d.kind, d.label@, d.prop@) is None && !asked(
            specs.drop_last(),
            d.kind,
            d.label@,
            d.prop@,
        ) {
            rest.push(made_spec(d.name@, d.label@, d.prop@, d.kind, now))
        } else {
            rest
        }
    }
}

proof fn same_made(
    was: SecondaryIndex,
    a: SecondaryIndex,
    b: SecondaryIndex,
    specs: Seq<DeclaredSpec>,
)
    requires
        forall|i: int|
            0 <= i < specs.len() ==> a.of_kind(
                (#[trigger] specs[i]).kind,
                specs[i].label@,
                specs[i].prop@,
            ) == b.of_kind(specs[i].kind, specs[i].label@, specs[i].prop@),
    ensures
        made_specs(was, a, specs) == made_specs(was, b, specs),
    decreases specs.len(),
{
    if specs.len() > 0 {
        let rest = specs.drop_last();
        assert forall|i: int| 0 <= i < rest.len() implies a.of_kind(
            (#[trigger] rest[i]).kind,
            rest[i].label@,
            rest[i].prop@,
        ) == b.of_kind(rest[i].kind, rest[i].label@, rest[i].prop@) by {
            assert(rest[i] == specs[i]);
        }
        same_made(was, a, b, rest);
        assert(specs.last() == specs[specs.len() - 1]);
    }
}

/// Indexes on properties are no part of the graph.
proof fn same_graph(a: &LazyGraphStore, b: &LazyGraphStore)
    requires
        a.base == b.base,
        a.overlay == b.overlay,
    ensures
        a.model() == b.model(),
{
    assert(a.directions() =~= b.directions());
    assert forall|id: Id| #[trigger] a.node(id) == b.node(id) by {}
    assert forall|id: Id| #[trigger] a.edge(id) == b.edge(id) by {}
    assert(a.model().nodes =~= b.model().nodes);
    assert(a.model().edges =~= b.model().edges);
}

} // verus!
