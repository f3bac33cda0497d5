//! What a file keeps of a graph, which edges go with a node, and which indexes
//! are inferred.

use vstd::prelude::*;

use super::index_key::KeyView;
use super::lazy::LazyGraphStore;
use super::secondary_index::{IndexKind, IndexSpec, SpecView};
use super::secondary_index_io::PersistedView;
use crate::model::graph_access::{EdgeView, GraphAccess, GraphModel, NodeView};
use crate::model::value::{Id, ValueView};
use crate::typing::label_type::LabelTypeView;

verus! {

/// Properties come back as they were, but for nulls, which are left out.
pub open spec fn props_kept(was: Map<Seq<char>, ValueView>, now: Map<Seq<char>, ValueView>) -> bool {
    &&& forall|k: Seq<char>| #[trigger]
        now.contains_key(k) <==> was.contains_key(k) && !(was[k] is Null)
    &&& forall|k: Seq<char>| #[trigger] now.contains_key(k) ==> now[k] == was[k]
}

proof fn labels_kept(l: LabelTypeView)
    ensures
        crate::typing::inference::label_conjunction(l.required()).required() == l.required(),
{
    if l.required().len() > 0 {
        LabelTypeView::from_list_required(l.required());
    } else {
        assert(crate::typing::inference::label_conjunction(l.required()).required()
            =~= l.required());
    }
}

/// A node comes back from a file under its name, with its labels in their order
/// and with its properties.
pub proof fn nodes_come_back(n: NodeView)
    ensures
        super::io::stored_node(n).name == n.name,
        super::io::stored_node(n).labels.required() == n.labels.required(),
        props_kept(n.props, super::io::stored_node(n).props),
{
    labels_kept(n.labels);
}

/// An edge comes back from a file under its name, with its labels in their order
/// and with its properties. It leaves and enters the nodes that it left and
/// entered, and has a direction where it had one.
pub proof fn edges_come_back(e: EdgeView)
    ensures
        super::io::stored_edge(e).name == e.name,
        super::io::stored_edge(e).labels.required() == e.labels.required(),
        props_kept(e.props, super::io::stored_edge(e).props),
        super::io::stored_edge(e).src == e.src,
        super::io::stored_edge(e).tgt == e.tgt,
        super::io::stored_edge(e).directed == e.directed,
{
    labels_kept(e.labels);
}

impl LazyGraphStore {
    /// The edges that go with a node are all those of the graph that it is an end
    /// of, whatever their direction.
    pub proof fn edges_go_with_their_node(&self, id: Id, edge: Id)
        requires
            self.sound(),
            self.indexed(),
        ensures
            self.incident(id).contains(edge) <==> (self.model().directed.contains(edge)
                || self.model().undirected.contains(edge)) && (self.edge(edge).src == id
                || self.edge(edge).tgt == id),
    {
        let out = self.edges_at(super::adjacency::Side::Outgoing, id);
        let inc = self.edges_at(super::adjacency::Side::Incoming, id);
        let und = self.edges_at(super::adjacency::Side::Undirected, id);
        self.edges_at_right(super::adjacency::Side::Outgoing, id, edge);
        self.edges_at_right(super::adjacency::Side::Incoming, id, edge);
        self.edges_at_right(super::adjacency::Side::Undirected, id, edge);
        let all = self.incident(id);
        if out.contains(edge) {
            let k = choose|k: int| 0 <= k < out.len() && out[k] == edge;
            assert(all[k] == edge);
        }
        if inc.contains(edge) {
            let k = choose|k: int| 0 <= k < inc.len() && inc[k] == edge;
            assert(all[out.len() + k] == edge);
        }
        if und.contains(edge) {
            let k = choose|k: int| 0 <= k < und.len() && und[k] == edge;
            assert(all[out.len() + inc.len() + k] == edge);
        }
        if all.contains(edge) {
            let k = choose|k: int| 0 <= k < all.len() && all[k] == edge;
            if k < out.len() {
                assert(out[k] == edge);
            } else if k < out.len() + inc.len() {
                assert(inc[k - out.len()] == edge);
            } else {
                assert(und[k - out.len() - inc.len()] == edge);
            }
        }
    }
}

/// A specification is found under a name where there is one, and it is the first.
pub proof fn the_first_of_a_name_is_found(specs: Seq<SpecView>, name: Seq<char>, j: int)
    ensures
        ({
            let i = super::secondary_index::first_named(specs, name);
            &&& i < specs.len()
            &&& i >= 0 ==> specs[i].name == name
            &&& 0 <= j < specs.len() && specs[j].name == name ==> 0 <= i <= j
        }),
    decreases specs.len(),
{
    if specs.len() > 0 {
        the_first_of_a_name_is_found(specs.drop_last(), name, j);
    }
}

proof fn times_positive(list: Seq<Seq<char>>, x: Seq<char>)
    ensures
        super::secondary_index::times(list, x) > 0 <==> list.contains(x),
    decreases list.len(),
{
    if list.len() > 0 {
        let u = list.drop_last();
        times_positive(u, x);
        if u.contains(x) {
            let k = choose|k: int| 0 <= k < u.len() && u[k] == x;
            assert(list[k] == x);
        }
        if list.contains(x) && list.last() != x {
            let k = choose|k: int| 0 <= k < list.len() && list[k] == x;
            assert(u[k] == x);
        }
        assert(list[list.len() - 1] == list.last());
    }
}

proof fn filed_repeated(
    s: Seq<(Id, Option<KeyView>)>,
    x: (Id, Option<KeyView>),
    n: nat,
    k: KeyView,
)
    ensures
        super::key_map::filed(s + Seq::new(n, |i: int| x), k).len() == super::key_map::filed(
            s,
            k,
        ).len() + if x.1 == Some(k) {
            n
        } else {
            0
        },
    decreases n,
{
    let t = s + Seq::new(n, |i: int| x);
    if n == 0 {
        assert(t =~= s);
    } else {
        let m = (n - 1) as nat;
        filed_repeated(s, x, m, k);
        assert(t.drop_last() =~= s + Seq::new(m, |i: int| x));
        assert(t.last() == x);
    }
}

/// How often a node has a label.
pub open spec fn has_times(m: GraphModel, id: Id, label: Seq<char>) -> nat {
    super::secondary_index::times(m.nodes[id].labels.required(), label)
}

#[verifier::rlimit(80)]
#[verifier::spinoff_prover]
proof fn items_of_nodes(m: GraphModel, ids: Seq<Id>, label: Seq<char>, prop: Seq<char>, k: KeyView)
    ensures
        ({
            let items = super::secondary_index::auto_items(m, ids, label, prop);
            let filed = super::key_map::filed(items, k).len();
            &&& items.len() > 0 <==> exists|i: int|
                0 <= i < ids.len() && has_times(m, #[trigger] ids[i], label) > 0
            &&& (forall|j: int| 0 <= j < items.len() ==> (#[trigger] items[j]).1 is Some)
                <==> forall|i: int|
                0 <= i < ids.len() && has_times(m, #[trigger] ids[i], label) > 0
                    ==> super::secondary_index::node_key(m.nodes[ids[i]], prop) is Some
            &&& filed > 0 ==> exists|i: int|
                0 <= i < ids.len() && has_times(m, #[trigger] ids[i], label) > 0
                    && super::secondary_index::node_key(m.nodes[ids[i]], prop) == Some(k)
            &&& forall|i: int|
                0 <= i < ids.len() && super::secondary_index::node_key(
                    m.nodes[#[trigger] ids[i]],
                    prop,
                ) == Some(k) ==> filed >= has_times(m, ids[i], label)
            &&& forall|i: int, j: int|
                0 <= i < j < ids.len() && super::secondary_index::node_key(
                    m.nodes[#[trigger] ids[i]],
                    prop,
                ) == Some(k) && super::secondary_index::node_key(m.nodes[#[trigger] ids[j]], prop)
                    == Some(k) ==> filed >= has_times(m, ids[i], label) + has_times(
                    m,
                    ids[j],
                    label,
                )
            &&& filed > 1 ==> (exists|i: int|
                0 <= i < ids.len() && has_times(m, #[trigger] ids[i], label) > 1
                    && super::secondary_index::node_key(m.nodes[ids[i]], prop) == Some(k)) || exists|
                i: int,
                j: int,
            |
                0 <= i < j < ids.len() && has_times(m, #[trigger] ids[i], label) > 0 && has_times(
                    m,
                    #[trigger] ids[j],
                    label,
                ) > 0 && super::secondary_index::node_key(m.nodes[ids[i]], prop) == Some(k)
                    && super::secondary_index::node_key(m.nodes[ids[j]], prop) == Some(k)
        }),
    decreases ids.len(),
{
    let items = super::secondary_index::auto_items(m, ids, label, prop);
    if ids.len() > 0 {
        let u = ids.drop_last();
        let id = ids.last();
        let rest = super::secondary_index::auto_items(m, u, label, prop);
        let key = super::secondary_index::node_key(m.nodes[id], prop);
        let n = has_times(m, id, label);
        items_of_nodes(m, u, label, prop, k);
        filed_repeated(rest, (id, key), n, k);
        assert(items =~= rest + Seq::new(n, |i: int| (id, key)));
        assert forall|i: int| 0 <= i < u.len() implies #[trigger] u[i] == ids[i] by {}
        assert(ids[ids.len() - 1] == id);
        if exists|i: int| 0 <= i < ids.len() && has_times(m, #[trigger] ids[i], label) > 0 {
            let i = choose|i: int| 0 <= i < ids.len() && has_times(m, #[trigger] ids[i], label) > 0;
            if i < u.len() {
                assert(has_times(m, u[i], label) > 0);
            }
        }
        if forall|j: int| 0 <= j < items.len() ==> (#[trigger] items[j]).1 is Some {
            assert forall|j: int| 0 <= j < rest.len() implies (#[trigger] rest[j]).1 is Some by {
                assert(items[j] == rest[j]);
            }
            assert forall|i: int|
                0 <= i < ids.len() && has_times(m, #[trigger] ids[i], label) > 0 implies
                super::secondary_index::node_key(m.nodes[ids[i]], prop) is Some by {
                if i < u.len() {
                    assert(has_times(m, u[i], label) > 0);
                } else {
                    assert(items[rest.len() as int].1 == key);
                }
            }
        }
        if forall|i: int|
            0 <= i < ids.len() && has_times(m, #[trigger] ids[i], label) > 0
                ==> super::secondary_index::node_key(m.nodes[ids[i]], prop) is Some {
            assert forall|i: int|
                0 <= i < u.len() && has_times(m, #[trigger] u[i], label) > 0 implies
                super::secondary_index::node_key(m.nodes[u[i]], prop) is Some by {
                assert(has_times(m, ids[i], label) > 0);
            }
            assert forall|j: int| 0 <= j < items.len() implies (#[trigger] items[j]).1 is Some by {
                if j < rest.len() {
                    assert(items[j] == rest[j]);
                } else {
                    assert(items[j] == (id, key));
                    assert(has_times(m, ids[ids.len() - 1], label) > 0);
                }
            }
        }
        let filed = super::key_map::filed(items, k).len();
        let before = super::key_map::filed(rest, k).len();
        assert forall|i: int|
            0 <= i < ids.len() && super::secondary_index::node_key(m.nodes[#[trigger] ids[i]], prop)
                == Some(k) implies filed >= has_times(m, ids[i], label) by {
            if i < u.len() {
                assert(before >= has_times(m, u[i], label));
            }
        }
        assert forall|i: int, j: int|
            0 <= i < j < ids.len() && super::secondary_index::node_key(
                m.nodes[#[trigger] ids[i]],
                prop,
            ) == Some(k) && super::secondary_index::node_key(m.nodes[#[trigger] ids[j]], prop)
                == Some(k) implies filed >= has_times(m, ids[i], label) + has_times(
            m,
            ids[j],
            label,
        ) by {
            if j < u.len() {
                assert(u[i] == ids[i] && u[j] == ids[j]);
                assert(before >= has_times(m, u[i], label) + has_times(m, u[j], label));
            } else {
                assert(before >= has_times(m, u[i], label));
            }
        }
        if before > 0 {
            let i = choose|i: int|
                0 <= i < u.len() && has_times(m, #[trigger] u[i], label) > 0
                    && super::secondary_index::node_key(m.nodes[u[i]], prop) == Some(k);
            assert(has_times(m, ids[i], label) > 0);
            if filed > before {
                assert(has_times(m, ids[ids.len() - 1], label) > 0);
            }
        }
        if filed > before {
            assert(has_times(m, ids[ids.len() - 1], label) > 0);
        }
        if before > 1 {
            if exists|i: int|
                0 <= i < u.len() && has_times(m, #[trigger] u[i], label) > 1
                    && super::secondary_index::node_key(m.nodes[u[i]], prop) == Some(k) {
                let i = choose|i: int|
                    0 <= i < u.len() && has_times(m, #[trigger] u[i], label) > 1
                        && super::secondary_index::node_key(m.nodes[u[i]], prop) == Some(k);
                assert(has_times(m, ids[i], label) > 1);
            } else {
                let (i, j) = choose|i: int, j: int|
                    0 <= i < j < u.len() && has_times(m, #[trigger] u[i], label) > 0 && has_times(
                        m,
                        #[trigger] u[j],
                        label,
                    ) > 0 && super::secondary_index::node_key(m.nodes[u[i]], prop) == Some(k)
                        && super::secondary_index::node_key(m.nodes[u[j]], prop) == Some(k);
                assert(has_times(m, ids[i], label) > 0 && has_times(m, ids[j], label) > 0);
            }
        }
    }
}

/// An index of a label and a property is inferred exactly where some listed node
/// has the label, every one that has it has it once and has a key for the
/// property, and no two have the same key.
pub proof fn indexes_are_inferred_where_keys_are_unique(
    m: GraphModel,
    label: Seq<char>,
    prop: Seq<char>,
)
    ensures
        super::secondary_index::auto_pair(m, label, prop) <==> {
            &&& exists|i: int|
                0 <= i < m.node_ids.len() && m.nodes[#[trigger] m.node_ids[i]].labels.required().contains(
                    label,
                )
            &&& forall|i: int|
                0 <= i < m.node_ids.len() && m.nodes[#[trigger] m.node_ids[i]].labels.required().contains(
                    label,
                ) ==> has_times(m, m.node_ids[i], label) == 1 && super::secondary_index::node_key(
                    m.nodes[m.node_ids[i]],
                    prop,
                ) is Some
            &&& forall|i: int, j: int|
                0 <= i < j < m.node_ids.len() && m.nodes[#[trigger] m.node_ids[i]].labels.required().contains(
                    label,
                ) && m.nodes[#[trigger] m.node_ids[j]].labels.required().contains(label)
                    ==> super::secondary_index::node_key(m.nodes[m.node_ids[i]], prop)
                    != super::secondary_index::node_key(m.nodes[m.node_ids[j]], prop)
        },
{
    let ids = m.node_ids;
    let items = super::secondary_index::auto_items(m, ids, label, prop);
    assert forall|i: int| 0 <= i < ids.len() implies (has_times(m, #[trigger] ids[i], label) > 0
        <==> m.nodes[ids[i]].labels.required().contains(label)) by {
        times_positive(m.nodes[ids[i]].labels.required(), label);
    }
    let any = arbitrary::<KeyView>();
    items_of_nodes(m, ids, label, prop, any);
    if super::secondary_index::auto_pair(m, label, prop) {
        assert forall|i: int|
            0 <= i < ids.len() && m.nodes[#[trigger] ids[i]].labels.required().contains(
                label,
            ) implies has_times(m, ids[i], label) == 1 && super::secondary_index::node_key(
            m.nodes[ids[i]],
            prop,
        ) is Some by {
            assert(has_times(m, ids[i], label) > 0);
            let k = super::secondary_index::node_key(m.nodes[ids[i]], prop)->Some_0;
            items_of_nodes(m, ids, label, prop, k);
            assert(super::key_map::filed(items, k).len() <= 1);
        }
        assert forall|i: int, j: int|
            0 <= i < j < ids.len() && m.nodes[#[trigger] ids[i]].labels.required().contains(label)
                && m.nodes[#[trigger] ids[j]].labels.required().contains(label) implies
            super::secondary_index::node_key(m.nodes[ids[i]], prop)
            != super::secondary_index::node_key(m.nodes[ids[j]], prop) by {
            if super::secondary_index::node_key(m.nodes[ids[i]], prop)
                == super::secondary_index::node_key(m.nodes[ids[j]], prop) {
                let k = super::secondary_index::node_key(m.nodes[ids[i]], prop)->Some_0;
                items_of_nodes(m, ids, label, prop, k);
                assert(has_times(m, ids[i], label) > 0 && has_times(m, ids[j], label) > 0);
                assert(super::key_map::filed(items, k).len() <= 1);
            }
        }
        let i = choose|i: int| 0 <= i < ids.len() && has_times(m, #[trigger] ids[i], label) > 0;
        assert(m.nodes[ids[i]].labels.required().contains(label));
    } else {
        let once = forall|i: int|
            0 <= i < ids.len() && m.nodes[#[trigger] ids[i]].labels.required().contains(label)
                ==> has_times(m, ids[i], label) == 1 && super::secondary_index::node_key(
                m.nodes[ids[i]],
                prop,
            ) is Some;
        let apart = forall|i: int, j: int|
            0 <= i < j < ids.len() && m.nodes[#[trigger] ids[i]].labels.required().contains(label)
                && m.nodes[#[trigger] ids[j]].labels.required().contains(label)
                ==> super::secondary_index::node_key(m.nodes[ids[i]], prop)
                != super::secondary_index::node_key(m.nodes[ids[j]], prop);
        if once && apart && exists|i: int|
            0 <= i < ids.len() && m.nodes[#[trigger] ids[i]].labels.required().contains(label) {
            assert(exists|i: int| 0 <= i < ids.len() && has_times(m, #[trigger] ids[i], label) > 0)
                by {
                let i = choose|i: int|
                    0 <= i < ids.len() && m.nodes[#[trigger] ids[i]].labels.required().contains(
                        label,
                    );
                assert(has_times(m, ids[i], label) > 0);
            }
            assert(forall|i: int|
                0 <= i < ids.len() && has_times(m, #[trigger] ids[i], label) > 0
                    ==> super::secondary_index::node_key(m.nodes[ids[i]], prop) is Some);
            assert forall|k: KeyView| (#[trigger] super::key_map::filed(items, k)).len() <= 1 by {
                items_of_nodes(m, ids, label, prop, k);
            }
            assert(super::secondary_index::one_each(items));
        }
    }
}

/// The indexes that a file keeps are those that were declared, under their names
/// and for their labels and properties. Inferred ones are left out.
pub proof fn declared_indexes_are_kept(specs: Seq<IndexSpec>, p: PersistedView)
    ensures
        super::secondary_index_io::declared_of(specs).contains(p) <==> exists|i: int|
            0 <= i < specs.len() && !(#[trigger] specs[i]).auto && specs[i].name@ == p.name
                && specs[i].label@ == p.label && specs[i].prop@ == p.prop
                && super::secondary_index_io::kind_code(specs[i].kind) == p.kind,
        super::secondary_index_io::kind_code(IndexKind::Hash)
            != super::secondary_index_io::kind_code(IndexKind::BTree),
    decreases specs.len(),
{
    if specs.len() > 0 {
        let u = specs.drop_last();
        let last = specs[specs.len() - 1];
        declared_indexes_are_kept(u, p);
        let rest = super::secondary_index_io::declared_of(u);
        let all = super::secondary_index_io::declared_of(specs);
        if rest.contains(p) {
            let i = choose|i: int|
                0 <= i < u.len() && !(#[trigger] u[i]).auto && u[i].name@ == p.name && u[i].label@
                    == p.label && u[i].prop@ == p.prop && super::secondary_index_io::kind_code(
                    u[i].kind,
                ) == p.kind;
            assert(specs[i] == u[i]);
            let k = choose|k: int| 0 <= k < rest.len() && rest[k] == p;
            assert(all[k] == p);
        }
        if all.contains(p) && !rest.contains(p) {
            let k = choose|k: int| 0 <= k < all.len() && all[k] == p;
            if k < rest.len() {
                assert(rest[k] == p);
            }
            assert(!last.auto);
            assert(!specs[specs.len() - 1].auto);
        }
        if exists|i: int|
            0 <= i < specs.len() && !(#[trigger] specs[i]).auto && specs[i].name@ == p.name
                && specs[i].label@ == p.label && specs[i].prop@ == p.prop
                && super::secondary_index_io::kind_code(specs[i].kind) == p.kind {
            let i = choose|i: int|
                0 <= i < specs.len() && !(#[trigger] specs[i]).auto && specs[i].name@ == p.name
                    && specs[i].label@ == p.label && specs[i].prop@ == p.prop
                    && super::secondary_index_io::kind_code(specs[i].kind) == p.kind;
            if i < u.len() {
                assert(u[i] == specs[i]);
            } else {
                assert(all[rest.len() as int] == p);
            }
        }
    }
}

} // verus!
