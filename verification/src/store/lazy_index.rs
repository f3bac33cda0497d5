//! What a file says of its elements at large: which carry a label, and which
//! edges stand at a node.

use vstd::prelude::*;

use super::adjacency::{build_csr, collect_pairs, AdjCsr, Side};
use super::disk_index::{
    read_adjacency_root, read_label_index_root, read_triple_chain, read_u32_chain, read_u32_lists,
};
use super::lazy_base::LazyBase;
use super::pager::{Pager, StoreError};
use super::string_table::StringTable;
use crate::fields::FieldMap;
use crate::model::graph::MemoryGraphStore;
use crate::model::graph_access::EdgeView;
use crate::model::value::Id;
use crate::text::copy_text;
use crate::typing::label_type::{LabelType, LabelTypeView};

verus! {

/// The list under a label, empty where there is none.
pub open spec fn list_of(m: Map<Seq<char>, Vec<Id>>, label: Seq<char>) -> Seq<Id> {
    if m.contains_key(label) {
        m[label]@
    } else {
        Seq::empty()
    }
}

/// Each label that occurs has the elements that carry it, in order, and no other
/// label has an entry.
pub open spec fn label_map_ok(m: Map<Seq<char>, Vec<Id>>, labels: Seq<LabelTypeView>) -> bool {
    forall|l: Seq<char>|
        {
            &&& #[trigger] list_of(m, l) == super::labels::labelled(labels, l)
            &&& m.contains_key(l) <==> super::labels::labelled(labels, l).len() > 0
        }
}

/// The lists of a map.
pub open spec fn map_lists(m: Map<Seq<char>, Vec<Id>>) -> Map<Seq<char>, Seq<Id>> {
    Map::new(|k: Seq<char>| m.contains_key(k), |k: Seq<char>| m[k]@)
}

/// What entries of a label index say, a later one in place of an earlier one.
pub open spec fn entries_map(
    pages: Seq<Seq<u8>>,
    pairs: Seq<(u32, u32)>,
    strings: Seq<Seq<char>>,
) -> Result<Map<Seq<char>, Seq<Id>>, StoreError>
    decreases pairs.len(),
{
    if pairs.len() == 0 {
        Ok(Map::empty())
    } else {
        match entries_map(pages, pairs.drop_last(), strings) {
            Err(e) => Err(e),
            Ok(m) => if pairs.last().0 >= strings.len() {
                Err(StoreError::Malformed)
            } else {
                match super::disk_index::u32_list(pages, pairs.last().1) {
                    Err(e) => Err(e),
                    Ok(ids) => Ok(m.insert(strings[pairs.last().0 as int], ids)),
                }
            },
        }
    }
}

/// What a label index says. A root of 0 stands for none.
pub open spec fn index_map(pages: Seq<Seq<u8>>, root: u32, strings: Seq<Seq<char>>) -> Result<
    Map<Seq<char>, Seq<Id>>,
    StoreError,
> {
    if root == 0 {
        Ok(Map::empty())
    } else {
        match super::disk_index::pair_list(pages, root) {
            Err(e) => Err(e),
            Ok(pairs) => entries_map(pages, pairs, strings),
        }
    }
}

proof fn entries_error(
    pages: Seq<Seq<u8>>,
    pairs: Seq<(u32, u32)>,
    strings: Seq<Seq<char>>,
    i: int,
    e: StoreError,
)
    requires
        0 <= i < pairs.len(),
        entries_map(pages, pairs.take(i + 1), strings) == Err::<Map<Seq<char>, Seq<Id>>, _>(e),
    ensures
        entries_map(pages, pairs, strings) == Err::<Map<Seq<char>, Seq<Id>>, _>(e),
    decreases pairs.len() - i,
{
    if i + 1 == pairs.len() {
        assert(pairs.take(i + 1) =~= pairs);
    } else {
        assert(pairs.take(i + 2).drop_last() =~= pairs.take(i + 1));
        entries_error(pages, pairs, strings, i + 1, e);
    }
}

/// Reads a label index.
pub fn read_label_map(pager: &Pager, root: u32, strings: &StringTable) -> (r: Result<
    FieldMap<Vec<Id>>,
    StoreError,
>)
    requires
        pager.wf(),
    ensures
        match r {
            Ok(m) => index_map(pager@, root, strings@) == Ok::<_, StoreError>(map_lists(m@)),
            Err(e) => index_map(pager@, root, strings@) == Err::<Map<Seq<char>, Seq<Id>>, _>(e),
        },
{
    let mut out: FieldMap<Vec<Id>> = FieldMap::new();
    assert(map_lists(out@) =~= Map::empty());
    if root == 0 {
        return Ok(out);
    }
    let pairs = match read_label_index_root(pager, root) {
        Ok(v) => v,
        Err(e) => {
            return Err(e);
        },
    };
    let mut i: usize = 0;
    while i < pairs.len()
        invariant
            i <= pairs.len(),
            pager.wf(),
            root != 0,
            super::disk_index::pair_list(pager@, root) == Ok::<_, StoreError>(pairs@),
            entries_map(pager@, pairs@.take(i as int), strings@) == Ok::<_, StoreError>(
                map_lists(out@),
            ),
        decreases pairs.len() - i,
    {
        proof {
            assert(pairs@.take(i + 1).drop_last() =~= pairs@.take(i as int));
            assert(pairs@.take(i + 1).last() == pairs@[i as int]);
        }
        let label = match strings.resolve(pairs[i].0) {
            Some(s) => copy_text(s),
            None => {
                proof {
                    entries_error(pager@, pairs@, strings@, i as int, StoreError::Malformed);
                }
                return Err(StoreError::Malformed);
            },
        };
        let ids = match read_u32_chain(pager, pairs[i].1) {
            Ok(v) => v,
            Err(e) => {
                proof {
                    entries_error(pager@, pairs@, strings@, i as int, e);
                }
                return Err(e);
            },
        };
        let ghost before = map_lists(out@);
        let ghost l = label@;
        let ghost v = ids@;
        out.insert(label, ids);
        assert(map_lists(out@) =~= before.insert(l, v));
        i = i + 1;
    }
    assert(pairs@.take(i as int) =~= pairs@);
    Ok(out)
}

/// Every label of the list is a string of the table.
pub open spec fn labels_in(labels: Seq<LabelTypeView>, strings: Seq<Seq<char>>) -> bool {
    forall|i: int, l: Seq<char>|
        0 <= i < labels.len() && #[trigger] labels[i].required().contains(l) ==> exists|sid: u32|
            sid < strings.len() && #[trigger] strings[sid as int] == l
}

proof fn entries_right(
    pages: Seq<Seq<u8>>,
    pairs: Seq<(u32, u32)>,
    strings: Seq<Seq<char>>,
    labels: Seq<LabelTypeView>,
)
    requires
        forall|i: int|
            0 <= i < pairs.len() ==> (#[trigger] pairs[i]).0 < strings.len()
                && super::disk_index::u32_list(pages, pairs[i].1) == Ok::<_, StoreError>(
                super::labels::labelled(labels, strings[pairs[i].0 as int]),
            ),
    ensures
        entries_map(pages, pairs, strings) is Ok,
        forall|l: Seq<char>|
            {
                &&& #[trigger] entries_map(pages, pairs, strings)->Ok_0.contains_key(l)
                    <==> exists|i: int|
                    0 <= i < pairs.len() && strings[(#[trigger] pairs[i]).0 as int] == l
                &&& entries_map(pages, pairs, strings)->Ok_0.contains_key(l) ==> entries_map(
                    pages,
                    pairs,
                    strings,
                )->Ok_0[l] == super::labels::labelled(labels, l)
            },
    decreases pairs.len(),
{
    if pairs.len() > 0 {
        let rest = pairs.drop_last();
        let n = pairs.len() - 1;
        assert forall|i: int| 0 <= i < rest.len() implies (#[trigger] rest[i]).0 < strings.len()
            && super::disk_index::u32_list(pages, rest[i].1) == Ok::<_, StoreError>(
            super::labels::labelled(labels, strings[rest[i].0 as int]),
        ) by {
            assert(rest[i] == pairs[i]);
        }
        entries_right(pages, rest, strings, labels);
        assert(pairs[n].0 < strings.len());
        let m0 = entries_map(pages, rest, strings)->Ok_0;
        let m = entries_map(pages, pairs, strings)->Ok_0;
        let last = strings[pairs[n].0 as int];
        assert forall|l: Seq<char>|
            {
                &&& #[trigger] m.contains_key(l) <==> exists|i: int|
                    0 <= i < pairs.len() && strings[(#[trigger] pairs[i]).0 as int] == l
                &&& m.contains_key(l) ==> m[l] == super::labels::labelled(labels, l)
            } by {
            assert(m0.contains_key(l) <==> exists|i: int|
                0 <= i < rest.len() && strings[(#[trigger] rest[i]).0 as int] == l);
            if m0.contains_key(l) {
                let i = choose|i: int|
                    0 <= i < rest.len() && strings[(#[trigger] rest[i]).0 as int] == l;
                assert(strings[pairs[i].0 as int] == l);
            }
            if l == last {
                assert(strings[pairs[n].0 as int] == l);
            }
            if exists|i: int|
                0 <= i < pairs.len() && strings[(#[trigger] pairs[i]).0 as int] == l {
                let i = choose|i: int|
                    0 <= i < pairs.len() && strings[(#[trigger] pairs[i]).0 as int] == l;
                if i < n {
                    assert(strings[rest[i].0 as int] == l);
                }
            }
        }
    }
}

/// The label index of a saved file says which elements carry a label.
pub proof fn label_map_read(
    pages: Seq<Seq<u8>>,
    root: u32,
    strings: Seq<Seq<char>>,
    labels: Seq<LabelTypeView>,
    m: Map<Seq<char>, Vec<Id>>,
)
    requires
        root != 0,
        labels.len() <= u32::MAX,
        super::io::label_index_ok(pages, root, strings, labels),
        labels_in(labels, strings),
    ensures
        index_map(pages, root, strings) is Ok,
        index_map(pages, root, strings)->Ok_0 == map_lists(m) ==> label_map_ok(m, labels),
{
    let pairs = super::disk_index::pair_list(pages, root)->Ok_0;
    entries_right(pages, pairs, strings, labels);
    let em = index_map(pages, root, strings)->Ok_0;
    if em == map_lists(m) {
        assert forall|l: Seq<char>|
            {
                &&& #[trigger] list_of(m, l) == super::labels::labelled(labels, l)
                &&& m.contains_key(l) <==> super::labels::labelled(labels, l).len() > 0
            } by {
            assert(em.contains_key(l) <==> m.contains_key(l));
            let list = super::labels::labelled(labels, l);
            if em.contains_key(l) {
                let i = choose|i: int|
                    0 <= i < pairs.len() && strings[(#[trigger] pairs[i]).0 as int] == l;
                assert(super::labels::labelled(labels, strings[pairs[i].0 as int]).len() > 0);
            }
            if list.len() > 0 {
                let id = list[0];
                assert(list.contains(id));
                super::labels::labelled_elements(labels, l, id);
                assert(labels[id as int].required().contains(l));
                let sid = choose|sid: u32|
                    sid < strings.len() && #[trigger] strings[sid as int] == l;
                assert(super::labels::labelled(labels, strings[sid as int]).len() > 0);
                let i = choose|i: int| 0 <= i < pairs.len() && (#[trigger] pairs[i]).0 == sid;
                assert(strings[pairs[i].0 as int] == l);
                assert(em.contains_key(l));
            } else {
                assert(list =~= Seq::empty());
            }
        }
    }
}

/// The label types of a list.
pub open spec fn type_views(v: Seq<LabelType>) -> Seq<LabelTypeView> {
    Seq::new(v.len(), |i: int| v[i]@)
}

proof fn labelled_push(labels: Seq<LabelTypeView>, x: LabelTypeView, l: Seq<char>)
    ensures
        super::labels::labelled(labels.push(x), l) == super::labels::labelled(labels, l)
            + super::labels::label_occurrences(x.required(), l, labels.len() as u32),
{
    assert(labels.push(x).drop_last() =~= labels);
}

/// Lists the elements under their labels.
pub fn build_label_map(labels: &Vec<LabelType>) -> (r: FieldMap<Vec<Id>>)
    requires
        labels@.len() <= u32::MAX,
    ensures
        label_map_ok(r@, type_views(labels@)),
{
    let ghost views = type_views(labels@);
    let mut out: FieldMap<Vec<Id>> = FieldMap::new();
    let mut i: usize = 0;
    while i < labels.len()
        invariant
            i <= labels.len() <= u32::MAX,
            views == type_views(labels@),
            label_map_ok(out@, views.take(i as int)),
        decreases labels.len() - i,
    {
        let list = MemoryGraphStore::label_strings(&labels[i]);
        let ghost texts = crate::text::texts(list@);
        let ghost m0 = out@;
        let ghost base = views.take(i as int);
        let mut j: usize = 0;
        proof {
            assert forall|l: Seq<char>|
                {
                    &&& #[trigger] list_of(out@, l) == super::labels::labelled(base, l)
                        + super::labels::label_occurrences(texts.take(0), l, i as u32)
                    &&& out@.contains_key(l) <==> list_of(out@, l).len() > 0
                } by {
                assert(super::labels::labelled(base, l) + Seq::<Id>::empty()
                    =~= super::labels::labelled(base, l));
            }
        }
        while j < list.len()
            invariant
                j <= list.len(),
                i < labels.len() <= u32::MAX,
                texts == crate::text::texts(list@),
                forall|l: Seq<char>|
                    {
                        &&& #[trigger] list_of(out@, l) == super::labels::labelled(base, l)
                            + super::labels::label_occurrences(
                            texts.take(j as int),
                            l,
                            i as u32,
                        )
                        &&& out@.contains_key(l) <==> list_of(out@, l).len() > 0
                    },
            decreases list.len() - j,
        {
            let ghost m1 = out@;
            let ghost lj = texts[j as int];
            let mut ids = match out.remove(list[j].as_str()) {
                Some(v) => v,
                None => Vec::new(),
            };
            assert(ids@ == list_of(m1, lj));
            ids.push(i as u32);
            out.insert(list[j].clone(), ids);
            proof {
                assert(texts.take(j + 1).drop_last() =~= texts.take(j as int));
                assert forall|l: Seq<char>|
                    {
                        &&& #[trigger] list_of(out@, l) == super::labels::labelled(base, l)
                            + super::labels::label_occurrences(texts.take(j + 1), l, i as u32)
                        &&& out@.contains_key(l) <==> list_of(out@, l).len() > 0
                    } by {
                    assert(list_of(m1, l) == super::labels::labelled(base, l)
                        + super::labels::label_occurrences(texts.take(j as int), l, i as u32));
                    assert(texts.take(j + 1).last() == lj);
                    if l == lj {
                        assert(list_of(out@, l) =~= list_of(m1, l).push(i as u32));
                        assert((super::labels::labelled(base, l)
                            + super::labels::label_occurrences(
                            texts.take(j as int),
                            l,
                            i as u32,
                        )).push(i as u32) =~= super::labels::labelled(base, l)
                            + super::labels::label_occurrences(
                            texts.take(j as int),
                            l,
                            i as u32,
                        ).push(i as u32));
                    } else {
                        assert(list_of(out@, l) == list_of(m1, l));
                    }
                }
            }
            j = j + 1;
        }
        proof {
            assert(texts.take(j as int) =~= texts);
            assert(views.take(i + 1) =~= base.push(views[i as int]));
            assert forall|l: Seq<char>|
                {
                    &&& #[trigger] list_of(out@, l) == super::labels::labelled(views.take(i + 1), l)
                    &&& out@.contains_key(l) <==> super::labels::labelled(
                        views.take(i + 1),
                        l,
                    ).len() > 0
                } by {
                labelled_push(base, views[i as int], l);
            }
        }
        i = i + 1;
    }
    assert(views.take(i as int) =~= views);
    out
}

/// Every id of every list lies below a count.
pub open spec fn lists_below(m: Map<Seq<char>, Vec<Id>>, n: int) -> bool {
    forall|l: Seq<char>, i: int|
        m.contains_key(l) && 0 <= i < m[l]@.len() ==> #[trigger] m[l]@[i] < n
}

/// Whether every id of every list lies below a count.
pub fn check_lists(m: &FieldMap<Vec<Id>>, n: usize) -> (r: bool)
    ensures
        r == lists_below(m@, n as int),
{
    let count = m.len();
    let ghost keys = m.keys();
    let mut i: usize = 0;
    while i < count
        invariant
            i <= count,
            keys == m.keys(),
            count == keys.len(),
            keys.to_set() == m@.dom(),
            forall|a: int, b: int|
                0 <= a < i && 0 <= b < m@[keys[a]]@.len() ==> #[trigger] m@[keys[a]]@[b] < n,
        decreases count - i,
    {
        let list = m.value_at(i);
        let ghost k = keys[i as int];
        let mut j: usize = 0;
        while j < list.len()
            invariant
                j <= list.len(),
                i < count,
                count == keys.len(),
                m@.contains_key(k),
                *list == m@[k],
                k == keys[i as int],
                forall|b: int| 0 <= b < j ==> #[trigger] m@[k]@[b] < n,
            decreases list.len() - j,
        {
            if list[j] as usize >= n {
                assert(m@[k]@[j as int] >= n);
                return false;
            }
            j = j + 1;
        }
        i = i + 1;
    }
    proof {
        assert forall|l: Seq<char>, b: int|
            m@.contains_key(l) && 0 <= b < m@[l]@.len() implies #[trigger] m@[l]@[b] < n by {
            assert(keys.to_set().contains(l));
            let a = choose|a: int| 0 <= a < keys.len() && keys[a] == l;
            assert(m@[keys[a]]@[b] < n);
        }
    }
    true
}

/// The ids of a right map lie below the count of elements.
pub proof fn right_lists_below(m: Map<Seq<char>, Vec<Id>>, labels: Seq<LabelTypeView>)
    requires
        labels.len() <= u32::MAX,
        label_map_ok(m, labels),
    ensures
        lists_below(m, labels.len() as int),
{
    assert forall|l: Seq<char>, i: int|
        m.contains_key(l) && 0 <= i < m[l]@.len() implies #[trigger] m[l]@[i] < labels.len() by {
        assert(list_of(m, l) == super::labels::labelled(labels, l));
        assert(super::labels::labelled(labels, l).contains(m[l]@[i]));
        super::labels::labelled_elements(labels, l, m[l]@[i]);
    }
}

impl LazyBase {
    /// The labels of the nodes.
    pub fn node_label_list(&self) -> (r: Vec<LabelType>)
        requires
            self.wf(),
        ensures
            type_views(r@) == super::writer::node_label_views(self.node_seq()),
    {
        let mut out: Vec<LabelType> = Vec::new();
        let mut i: usize = 0;
        while i < self.node_locs.len()
            invariant
                i <= self.node_locs.len(),
                self.wf(),
                out@.len() == i,
                forall|j: int| 0 <= j < i ==> (#[trigger] out@[j])@ == self.node(j).labels,
            decreases self.node_locs.len() - i,
        {
            out.push(self.read_node_record(i as u32).labels);
            i = i + 1;
        }
        assert(type_views(out@) =~= super::writer::node_label_views(self.node_seq()));
        out
    }

    /// The labels of the edges.
    pub fn edge_label_list(&self) -> (r: Vec<LabelType>)
        requires
            self.wf(),
        ensures
            type_views(r@) == super::writer::edge_label_views(self.edge_seq()),
    {
        let mut out: Vec<LabelType> = Vec::new();
        let mut i: usize = 0;
        while i < self.edge_locs.len()
            invariant
                i <= self.edge_locs.len(),
                self.wf(),
                out@.len() == i,
                forall|j: int| 0 <= j < i ==> (#[trigger] out@[j])@ == self.edge(j).labels,
            decreases self.edge_locs.len() - i,
        {
            out.push(self.read_edge_record(i as u32).element.labels);
            i = i + 1;
        }
        assert(type_views(out@) =~= super::writer::edge_label_views(self.edge_seq()));
        out
    }

    /// Labels of records are strings of the table.
    pub proof fn labels_known(&self)
        requires
            self.wf(),
        ensures
            labels_in(super::writer::node_label_views(self.node_seq()), self.strings@),
            labels_in(super::writer::edge_label_views(self.edge_seq()), self.strings@),
    {
        let nl = super::writer::node_label_views(self.node_seq());
        let el = super::writer::edge_label_views(self.edge_seq());
        assert forall|i: int, l: Seq<char>|
            0 <= i < nl.len() && #[trigger] nl[i].required().contains(l) implies exists|sid: u32|
            sid < self.strings@.len() && #[trigger] self.strings@[sid as int] == l by {
            assert(super::lazy_base::located_node(
                self.pager@,
                self.node_locs@[i],
                self.strings@,
            ) is Some);
            let c = super::cells::cell_at(
                self.pager@,
                self.node_locs@[i].0 as int,
                self.node_locs@[i].1 as int,
            )->Some_0;
            let rec = super::record::parse_node(c)->Some_0.0;
            record_labels(rec, self.strings@, l);
        }
        assert forall|i: int, l: Seq<char>|
            0 <= i < el.len() && #[trigger] el[i].required().contains(l) implies exists|sid: u32|
            sid < self.strings@.len() && #[trigger] self.strings@[sid as int] == l by {
            assert(super::lazy_base::located_edge(
                self.pager@,
                self.edge_locs@[i],
                self.strings@,
            ) is Some);
            let c = super::cells::cell_at(
                self.pager@,
                self.edge_locs@[i].0 as int,
                self.edge_locs@[i].1 as int,
            )->Some_0;
            let rec = super::record::parse_edge(c)->Some_0;
            record_labels(rec.node, self.strings@, l);
        }
    }
}

proof fn record_labels(rec: super::record::RecordView, strings: Seq<Seq<char>>, l: Seq<char>)
    requires
        super::io::record_node(rec, strings) is Some,
        super::io::record_node(rec, strings)->Some_0.labels.required().contains(l),
    ensures
        exists|sid: u32| sid < strings.len() && #[trigger] strings[sid as int] == l,
{
    let list = super::values::resolve_ids(rec.label_str_ids, strings)->Some_0;
    super::writer::conjunction_labels(list);
    resolved_label(rec.label_str_ids, strings, l);
}

proof fn resolved_label(ids: Seq<u32>, strings: Seq<Seq<char>>, l: Seq<char>)
    requires
        super::values::resolve_ids(ids, strings) is Some,
        super::values::resolve_ids(ids, strings)->Some_0.contains(l),
    ensures
        exists|sid: u32| sid < strings.len() && #[trigger] strings[sid as int] == l,
    decreases ids.len(),
{
    let all = super::values::resolve_ids(ids, strings)->Some_0;
    if ids.len() > 0 {
        let rest = super::values::resolve_ids(ids.drop_last(), strings)->Some_0;
        let i = choose|i: int| 0 <= i < all.len() && all[i] == l;
        if i < rest.len() {
            assert(rest[i] == l);
            resolved_label(ids.drop_last(), strings, l);
        } else {
            assert(strings[ids.last() as int] == l);
        }
    }
}

/// The edges at nodes, side by side.
pub struct Adjacency {
    pub outgoing: AdjCsr,
    pub incoming: AdjCsr,
    pub undirected: AdjCsr,
}

impl Adjacency {
    /// The edges of a side.
    pub open spec fn side(&self, side: Side) -> AdjCsr {
        match side {
            Side::Outgoing => self.outgoing,
            Side::Incoming => self.incoming,
            Side::Undirected => self.undirected,
        }
    }

    /// The lists can be cut into those of the nodes.
    pub open spec fn ok(&self) -> bool {
        forall|side: Side|
            super::adjacency::offsets_ok(
                (#[trigger] self.side(side)).offsets@,
                self.side(side).flat@,
            )
    }

    /// These are the edges at each node.
    pub open spec fn right(&self, edges: Seq<EdgeView>, nodes: nat) -> bool {
        forall|side: Side|
            (#[trigger] self.side(side)).holds(super::adjacency::edge_pairs(edges, side), nodes)
    }

    /// Right lists can be cut.
    pub proof fn right_ok(&self, edges: Seq<EdgeView>, nodes: nat)
        requires
            self.right(edges, nodes),
        ensures
            self.ok(),
    {
        assert forall|side: Side|
            super::adjacency::offsets_ok(
                (#[trigger] self.side(side)).offsets@,
                self.side(side).flat@,
            ) by {
            self.side(side).slices(super::adjacency::edge_pairs(edges, side), nodes);
        }
    }

    /// The edges of a side at a node.
    pub open spec fn at(&self, side: Side, node: Id) -> Seq<Id> {
        super::adjacency::node_slice(
            self.side(side).offsets@,
            self.side(side).flat@,
            node as int,
        )
    }

    /// The edges of a side at a node.
    pub fn list_at(&self, side: Side, node: Id) -> (r: &[u32])
        requires
            self.ok(),
        ensures
            r@ == self.at(side, node),
    {
        match side {
            Side::Outgoing => {
                assert(super::adjacency::offsets_ok(
                    self.side(Side::Outgoing).offsets@,
                    self.side(Side::Outgoing).flat@,
                ));
                self.outgoing.slice(node)
            },
            Side::Incoming => {
                assert(super::adjacency::offsets_ok(
                    self.side(Side::Incoming).offsets@,
                    self.side(Side::Incoming).flat@,
                ));
                self.incoming.slice(node)
            },
            Side::Undirected => {
                assert(super::adjacency::offsets_ok(
                    self.side(Side::Undirected).offsets@,
                    self.side(Side::Undirected).flat@,
                ));
                self.undirected.slice(node)
            },
        }
    }
}

/// Whether a list can be cut into those of the nodes.
fn check_offsets(csr: &AdjCsr) -> (r: bool)
    ensures
        r == super::adjacency::offsets_ok(csr.offsets@, csr.flat@),
{
    if csr.offsets.len() == 0 {
        return true;
    }
    let mut i: usize = 0;
    while i < csr.offsets.len() - 1
        invariant
            i <= csr.offsets.len() - 1,
            csr.offsets@.len() > 0,
            forall|n: int|
                0 <= n < i ==> #[trigger] csr.offsets@[n] <= csr.offsets@[n + 1]
                    <= csr.flat@.len(),
        decreases csr.offsets.len() - i,
    {
        if csr.offsets[i] > csr.offsets[i + 1] || csr.offsets[i + 1] as usize > csr.flat.len() {
            assert(!(csr.offsets@[i as int] <= csr.offsets@[i + 1] <= csr.flat@.len()));
            return false;
        }
        i = i + 1;
    }
    true
}

/// The lists of a file are six, by twos for each side, and can be cut.
pub open spec fn csr_form(lists: Seq<Seq<u32>>) -> bool {
    &&& lists.len() == 6
    &&& super::adjacency::offsets_ok(lists[0], lists[1])
    &&& super::adjacency::offsets_ok(lists[2], lists[3])
    &&& super::adjacency::offsets_ok(lists[4], lists[5])
}

/// Reads the edges at nodes.
pub fn read_adjacency_csr(pager: &Pager, root: u32) -> (r: Result<Adjacency, StoreError>)
    requires
        pager.wf(),
    ensures
        ({
            let roots = super::disk_index::u32_list(pager@, root);
            match r {
                Ok(a) => {
                    &&& a.ok()
                    &&& roots is Ok
                    &&& super::disk_index::u32_lists(pager@, roots->Ok_0) == Ok::<_, StoreError>(
                        seq![
                            a.outgoing.offsets@,
                            a.outgoing.flat@,
                            a.incoming.offsets@,
                            a.incoming.flat@,
                            a.undirected.offsets@,
                            a.undirected.flat@,
                        ],
                    )
                },
                Err(e) => match roots {
                    Err(f) => e == f,
                    Ok(list) => match super::disk_index::u32_lists(pager@, list) {
                        Err(f) => e == f,
                        Ok(lists) => e == StoreError::Malformed && !csr_form(lists),
                    },
                },
            }
        }),
{
    let lists = match read_u32_lists(pager, root) {
        Ok(v) => v,
        Err(e) => {
            return Err(e);
        },
    };
    let ghost views = super::disk_index::list_views(lists@);
    if lists.len() != 6 {
        return Err(StoreError::Malformed);
    }
    assert(views[0] == lists@[0]@ && views[1] == lists@[1]@ && views[2] == lists@[2]@ && views[3]
        == lists@[3]@ && views[4] == lists@[4]@ && views[5] == lists@[5]@);
    let a = Adjacency {
        outgoing: AdjCsr {
            offsets: super::io::copy_ids(&lists[0]),
            flat: super::io::copy_ids(&lists[1]),
        },
        incoming: AdjCsr {
            offsets: super::io::copy_ids(&lists[2]),
            flat: super::io::copy_ids(&lists[3]),
        },
        undirected: AdjCsr {
            offsets: super::io::copy_ids(&lists[4]),
            flat: super::io::copy_ids(&lists[5]),
        },
    };
    if !check_offsets(&a.outgoing) || !check_offsets(&a.incoming) || !check_offsets(
        &a.undirected,
    ) {
        return Err(StoreError::Malformed);
    }
    proof {
        assert(views =~= seq![
            a.outgoing.offsets@,
            a.outgoing.flat@,
            a.incoming.offsets@,
            a.incoming.flat@,
            a.undirected.offsets@,
            a.undirected.flat@,
        ]);
    }
    Ok(a)
}

/// The edges at nodes of a saved file are right.
pub proof fn saved_adjacency(
    pages: Seq<Seq<u8>>,
    root: u32,
    edges: Seq<EdgeView>,
    nodes: nat,
    a: Adjacency,
)
    requires
        super::io::csr_fits(edges, nodes),
        super::disk_index::lists_at(pages, root, super::io::csr_lists(edges, nodes)),
    ensures
        super::disk_index::u32_list(pages, root) is Ok,
        super::disk_index::u32_lists(pages, super::disk_index::u32_list(pages, root)->Ok_0)
            == Ok::<_, StoreError>(super::io::csr_lists(edges, nodes)),
        csr_form(super::io::csr_lists(edges, nodes)),
        super::io::csr_lists(edges, nodes) == seq![
            a.outgoing.offsets@,
            a.outgoing.flat@,
            a.incoming.offsets@,
            a.incoming.flat@,
            a.undirected.offsets@,
            a.undirected.flat@,
        ] ==> a.right(edges, nodes),
{
    let want = super::io::csr_lists(edges, nodes);
    super::disk_index::lists_at_read(pages, root, want);
    lists_cut(edges, Side::Outgoing, nodes);
    lists_cut(edges, Side::Incoming, nodes);
    lists_cut(edges, Side::Undirected, nodes);
    let have = seq![
        a.outgoing.offsets@,
        a.outgoing.flat@,
        a.incoming.offsets@,
        a.incoming.flat@,
        a.undirected.offsets@,
        a.undirected.flat@,
    ];
    if want == have {
        assert(want[0] == have[0] && want[1] == have[1] && want[2] == have[2] && want[3] == have[3]
            && want[4] == have[4] && want[5] == have[5]);
        assert forall|side: Side|
            (#[trigger] a.side(side)).holds(super::adjacency::edge_pairs(edges, side), nodes) by {
            assert(super::adjacency::flat_upto(
                super::adjacency::edge_pairs(edges, side),
                nodes,
            ).len() <= u32::MAX);
        }
    }
}

proof fn lists_cut(edges: Seq<EdgeView>, side: Side, nodes: nat)
    requires
        super::io::csr_fits(edges, nodes),
    ensures
        super::adjacency::offsets_ok(
            super::io::csr_offsets(super::adjacency::edge_pairs(edges, side), nodes),
            super::adjacency::flat_upto(super::adjacency::edge_pairs(edges, side), nodes),
        ),
{
    let pairs = super::adjacency::edge_pairs(edges, side);
    let offsets = super::io::csr_offsets(pairs, nodes);
    let flat = super::adjacency::flat_upto(pairs, nodes);
    assert(flat.len() <= u32::MAX);
    assert forall|n: int| 0 <= n < offsets.len() - 1 implies #[trigger] offsets[n] <= offsets[n + 1]
        <= flat.len() by {
        super::adjacency::flat_prefix(pairs, n as nat, (n + 1) as nat);
        super::adjacency::flat_prefix(pairs, (n + 1) as nat, nodes);
    }
}

/// The edges of a kind among those at a node.
pub open spec fn of_kind(triples: Seq<(u32, u32, u8)>, node: u32, kind: u8) -> Seq<(u32, u32)>
    decreases triples.len(),
{
    if triples.len() == 0 {
        Seq::empty()
    } else {
        let rest = of_kind(triples.drop_last(), node, kind);
        if triples.last().2 == kind {
            rest.push((node, triples.last().0))
        } else {
            rest
        }
    }
}

/// The edges of a kind at the nodes of an index.
pub open spec fn gathered(pages: Seq<Seq<u8>>, roots: Seq<(u32, u32)>, kind: u8) -> Result<
    Seq<(u32, u32)>,
    StoreError,
>
    decreases roots.len(),
{
    if roots.len() == 0 {
        Ok(Seq::empty())
    } else {
        match gathered(pages, roots.drop_last(), kind) {
            Err(e) => Err(e),
            Ok(rest) => match super::disk_index::triple_list(pages, roots.last().1) {
                Err(e) => Err(e),
                Ok(t) => Ok(rest + of_kind(t, roots.last().0, kind)),
            },
        }
    }
}

/// The edges of each kind can be read, stand at nodes below a count, and can be
/// counted.
pub open spec fn lists_fit(pages: Seq<Seq<u8>>, roots: Seq<(u32, u32)>, nodes: int) -> bool {
    forall|kind: u8|
        kind <= 2 ==> (#[trigger] gathered(pages, roots, kind)) is Ok && pairs_fit(
            gathered(pages, roots, kind)->Ok_0,
            nodes,
        )
}

/// Pairs of nodes below a count that can be counted.
pub open spec fn pairs_fit(pairs: Seq<(u32, u32)>, nodes: int) -> bool {
    pairs.len() <= u32::MAX && forall|i: int|
        0 <= i < pairs.len() ==> (#[trigger] pairs[i]).0 < nodes
}

fn push_kind(out: &mut Vec<(u32, u32)>, triples: &Vec<(u32, u32, u8)>, node: u32, kind: u8)
    ensures
        final(out)@ == old(out)@ + of_kind(triples@, node, kind),
{
    let ghost before = out@;
    let mut i: usize = 0;
    assert(before + of_kind(triples@.take(0), node, kind) =~= before);
    while i < triples.len()
        invariant
            i <= triples.len(),
            out@ == before + of_kind(triples@.take(i as int), node, kind),
        decreases triples.len() - i,
    {
        assert(triples@.take(i + 1).drop_last() =~= triples@.take(i as int));
        if triples[i].2 == kind {
            let ghost sofar = of_kind(triples@.take(i as int), node, kind);
            out.push((node, triples[i].0));
            assert((before + sofar).push((node, triples@[i as int].0)) =~= before + sofar.push(
                (node, triples@[i as int].0),
            ));
        }
        i = i + 1;
    }
    assert(triples@.take(i as int) =~= triples@);
}

/// Whether every node of a list lies below a count.
fn nodes_below(pairs: &Vec<(u32, u32)>, n: usize) -> (r: bool)
    ensures
        r == forall|i: int| 0 <= i < pairs@.len() ==> (#[trigger] pairs@[i]).0 < n,
{
    let mut i: usize = 0;
    while i < pairs.len()
        invariant
            i <= pairs.len(),
            forall|j: int| 0 <= j < i ==> (#[trigger] pairs@[j]).0 < n,
        decreases pairs.len() - i,
    {
        if pairs[i].0 as usize >= n {
            assert(pairs@[i as int].0 >= n);
            return false;
        }
        i = i + 1;
    }
    true
}

/// Reads the edges at nodes from an index with one list per node.
pub fn read_adjacency_lists(pager: &Pager, root: u32, node_count: usize) -> (r: Result<
    Adjacency,
    StoreError,
>)
    requires
        pager.wf(),
    ensures
        match r {
            Ok(a) => {
                &&& a.ok()
                &&& super::disk_index::pair_list(pager@, root) is Ok
                &&& ({
                    let roots = super::disk_index::pair_list(pager@, root)->Ok_0;
                    &&& gathered(pager@, roots, 0) is Ok
                    &&& gathered(pager@, roots, 1) is Ok
                    &&& gathered(pager@, roots, 2) is Ok
                    &&& a.outgoing.holds(gathered(pager@, roots, 0)->Ok_0, node_count as nat)
                    &&& a.incoming.holds(gathered(pager@, roots, 1)->Ok_0, node_count as nat)
                    &&& a.undirected.holds(gathered(pager@, roots, 2)->Ok_0, node_count as nat)
                })
            },
            Err(e) => match super::disk_index::pair_list(pager@, root) {
                Err(f) => e == f,
                Ok(roots) => !lists_fit(pager@, roots, node_count as int) && match gathered(
                    pager@,
                    roots,
                    0,
                ) {
                    Err(f) => e == f,
                    Ok(_) => e == StoreError::Malformed || e == StoreError::TooManyEdges,
                },
            },
        },
{
    let roots = match read_adjacency_root(pager, root) {
        Ok(v) => v,
        Err(e) => {
            return Err(e);
        },
    };
    let mut out: Vec<(u32, u32)> = Vec::new();
    let mut inc: Vec<(u32, u32)> = Vec::new();
    let mut und: Vec<(u32, u32)> = Vec::new();
    let mut i: usize = 0;
    while i < roots.len()
        invariant
            i <= roots.len(),
            pager.wf(),
            super::disk_index::pair_list(pager@, root) == Ok::<_, StoreError>(roots@),
            gathered(pager@, roots@.take(i as int), 0) == Ok::<_, StoreError>(out@),
            gathered(pager@, roots@.take(i as int), 1) == Ok::<_, StoreError>(inc@),
            gathered(pager@, roots@.take(i as int), 2) == Ok::<_, StoreError>(und@),
        decreases roots.len() - i,
    {
        proof {
            assert(roots@.take(i + 1).drop_last() =~= roots@.take(i as int));
            assert(roots@.take(i + 1).last() == roots@[i as int]);
        }
        let triples = match read_triple_chain(pager, roots[i].1) {
            Ok(t) => t,
            Err(e) => {
                proof {
                    gathered_error(pager@, roots@, i as int, 0, e);
                }
                return Err(e);
            },
        };
        push_kind(&mut out, &triples, roots[i].0, 0);
        push_kind(&mut inc, &triples, roots[i].0, 1);
        push_kind(&mut und, &triples, roots[i].0, 2);
        i = i + 1;
    }
    assert(roots@.take(i as int) =~= roots@);
    proof {
        if lists_fit(pager@, roots@, node_count as int) {
            assert(gathered(pager@, roots@, 0) is Ok && pairs_fit(out@, node_count as int));
            assert(gathered(pager@, roots@, 1) is Ok && pairs_fit(inc@, node_count as int));
            assert(gathered(pager@, roots@, 2) is Ok && pairs_fit(und@, node_count as int));
        }
    }
    if !nodes_below(&out, node_count) || !nodes_below(&inc, node_count) || !nodes_below(
        &und,
        node_count,
    ) {
        return Err(StoreError::Malformed);
    }
    let max = u32::MAX as usize;
    if out.len() > max || inc.len() > max || und.len() > max {
        return Err(StoreError::TooManyEdges);
    }
    let a = Adjacency {
        outgoing: build_csr(node_count, &out),
        incoming: build_csr(node_count, &inc),
        undirected: build_csr(node_count, &und),
    };
    proof {
        a.outgoing.slices(out@, node_count as nat);
        a.incoming.slices(inc@, node_count as nat);
        a.undirected.slices(und@, node_count as nat);
    }
    Ok(a)
}

proof fn gathered_error(
    pages: Seq<Seq<u8>>,
    roots: Seq<(u32, u32)>,
    i: int,
    kind: u8,
    e: StoreError,
)
    requires
        0 <= i < roots.len(),
        gathered(pages, roots.take(i + 1), kind) == Err::<Seq<(u32, u32)>, _>(e),
    ensures
        gathered(pages, roots, kind) == Err::<Seq<(u32, u32)>, _>(e),
    decreases roots.len() - i,
{
    if i + 1 == roots.len() {
        assert(roots.take(i + 1) =~= roots);
    } else {
        assert(roots.take(i + 2).drop_last() =~= roots.take(i + 1));
        gathered_error(pages, roots, i + 1, kind, e);
    }
}

/// No edges at any node.
pub fn no_adjacency(node_count: usize) -> (r: Adjacency)
    ensures
        r.ok(),
        r.outgoing.holds(Seq::empty(), node_count as nat),
        r.incoming.holds(Seq::empty(), node_count as nat),
        r.undirected.holds(Seq::empty(), node_count as nat),
{
    let a = Adjacency {
        outgoing: AdjCsr::empty(node_count),
        incoming: AdjCsr::empty(node_count),
        undirected: AdjCsr::empty(node_count),
    };
    proof {
        a.outgoing.slices(Seq::empty(), node_count as nat);
        a.incoming.slices(Seq::empty(), node_count as nat);
        a.undirected.slices(Seq::empty(), node_count as nat);
    }
    a
}

impl LazyBase {
    /// Collects the edges at nodes. It fails where there are more ends of
    /// undirected edges than can be counted.
    pub fn build_adjacency(&self) -> (r: Result<Adjacency, StoreError>)
        requires
            self.wf(),
        ensures
            match r {
                Ok(a) => a.right(self.edge_seq(), self.node_locs@.len()),
                Err(e) => e == StoreError::TooManyEdges && super::adjacency::edge_pairs(
                    self.edge_seq(),
                    Side::Undirected,
                ).len() > u32::MAX,
            },
    {
        let ghost edges = self.edge_seq();
        proof {
            assert forall|i: int| 0 <= i < edges.len() implies (#[trigger] edges[i]).src
                == self.edge_src@[i] && edges[i].tgt == self.edge_tgt@[i] && edges[i].directed
                == self.edge_directed@[i] && edges[i].src < self.node_locs@.len() && edges[i].tgt
                < self.node_locs@.len() by {
                assert(self.edge(i) == edges[i]);
                assert(super::lazy_base::located_edge(
                    self.pager@,
                    self.edge_locs@[i],
                    self.strings@,
                ) is Some);
            }
            super::adjacency::pairs_range(edges, Side::Outgoing, self.node_locs@.len() as int);
            super::adjacency::pairs_range(edges, Side::Incoming, self.node_locs@.len() as int);
            super::adjacency::pairs_range(edges, Side::Undirected, self.node_locs@.len() as int);
        }
        let out = collect_pairs(
            &self.edge_src,
            &self.edge_tgt,
            &self.edge_directed,
            Side::Outgoing,
            Ghost(edges),
        );
        let inc = collect_pairs(
            &self.edge_src,
            &self.edge_tgt,
            &self.edge_directed,
            Side::Incoming,
            Ghost(edges),
        );
        let und = collect_pairs(
            &self.edge_src,
            &self.edge_tgt,
            &self.edge_directed,
            Side::Undirected,
            Ghost(edges),
        );
        if und.len() > u32::MAX as usize {
            return Err(StoreError::TooManyEdges);
        }
        let n = self.node_locs.len();
        let a = Adjacency {
            outgoing: build_csr(n, &out),
            incoming: build_csr(n, &inc),
            undirected: build_csr(n, &und),
        };
        proof {
            assert forall|side: Side|
                (#[trigger] a.side(side)).holds(
                    super::adjacency::edge_pairs(edges, side),
                    n as nat,
                ) by {
                match side {
                    Side::Outgoing => {},
                    Side::Incoming => {},
                    Side::Undirected => {},
                }
            }
        }
        Ok(a)
    }
}

} // verus!
