//! A graph that stays in its file: records, labels and adjacency are read when
//! they are asked for, and elements are known by their names.

use vstd::prelude::*;

use super::adjacency::Side;
use super::disk_index::{
    read_adjacency_root, read_label_index_root, read_triple_chain, read_u32_chain,
};
use super::lazy_base::LazyBase;
use super::names::{copy_names, index_names, keep_flagged, named_step, NamedStep};
use super::pager::{Pager, StoreError};
use crate::fields::FieldMap;
use crate::model::graph::list_positions;
use crate::model::graph_access::{EdgeView, GraphAccess, NodeView};
use crate::model::value::{Id, Props};
use crate::typing::label_type::{LabelType, LabelTypeView};

verus! {

/// A graph in a file.
pub struct DiskGraphStore {
    pub base: LazyBase,
    pub node_label_dir: Vec<(u32, u32)>,
    pub edge_label_dir: Vec<(u32, u32)>,
    pub adj_dir: Vec<(u32, u32)>,
    pub node_ids: FieldMap<Id>,
    pub edge_ids: FieldMap<Id>,
    pub node_user_ids: Vec<String>,
    pub edge_user_ids: Vec<String>,
}

/// The entries of a list, none where it cannot be read.
pub open spec fn entries_or_none(pages: Seq<Seq<u8>>, root: u32) -> Seq<(u32, u32)> {
    match super::disk_index::pair_list(pages, root) {
        Ok(v) => v,
        Err(_) => Seq::empty(),
    }
}

/// The first entry under a number, or -1.
pub open spec fn first_under(entries: Seq<(u32, u32)>, key: u32) -> int
    decreases entries.len(),
{
    if entries.len() == 0 {
        -1
    } else {
        let rest = first_under(entries.drop_last(), key);
        if rest >= 0 {
            rest
        } else if entries.last().0 == key {
            entries.len() - 1
        } else {
            -1
        }
    }
}

proof fn first_found(entries: Seq<(u32, u32)>, key: u32, i: int)
    requires
        0 <= i < entries.len(),
        entries[i].0 == key,
        forall|j: int| 0 <= j < i ==> (#[trigger] entries[j]).0 != key,
    ensures
        first_under(entries, key) == i,
    decreases entries.len(),
{
    if i + 1 < entries.len() {
        assert(entries.drop_last()[i] == entries[i]);
        first_found(entries.drop_last(), key, i);
    } else {
        first_missing(entries.drop_last(), key);
    }
}

proof fn first_missing(entries: Seq<(u32, u32)>, key: u32)
    requires
        forall|j: int| 0 <= j < entries.len() ==> (#[trigger] entries[j]).0 != key,
    ensures
        first_under(entries, key) == -1,
    decreases entries.len(),
{
    if entries.len() > 0 {
        assert(entries[entries.len() - 1].0 != key);
        assert forall|j: int| 0 <= j < entries.drop_last().len() implies (
        #[trigger] entries.drop_last()[j]).0 != key by {
            assert(entries[j].0 != key);
        }
        first_missing(entries.drop_last(), key);
    }
}

/// The page under a number.
fn find_entry(entries: &Vec<(u32, u32)>, key: u32) -> (r: Option<u32>)
    ensures
        match r {
            Some(p) => first_under(entries@, key) >= 0 && p == entries@[first_under(
                entries@,
                key,
            )].1,
            None => first_under(entries@, key) < 0,
        },
{
    let mut i: usize = 0;
    while i < entries.len()
        invariant
            i <= entries.len(),
            forall|j: int| 0 <= j < i ==> (#[trigger] entries@[j]).0 != key,
        decreases entries.len() - i,
    {
        if entries[i].0 == key {
            proof {
                first_found(entries@, key, i as int);
            }
            return Some(entries[i].1);
        }
        i = i + 1;
    }
    proof {
        first_missing(entries@, key);
    }
    None
}

/// The number of a side in an adjacency index.
pub open spec fn side_code(side: Side) -> u8 {
    match side {
        Side::Outgoing => 0,
        Side::Incoming => 1,
        Side::Undirected => 2,
    }
}

/// The ids that a page lists, none where it cannot be read.
pub open spec fn ids_or_none(pages: Seq<Seq<u8>>, page: u32) -> Seq<Id> {
    match super::disk_index::u32_list(pages, page) {
        Ok(v) => v,
        Err(_) => Seq::empty(),
    }
}

/// The edges of a kind in a list.
pub open spec fn kind_ids(triples: Seq<(u32, u32, u8)>, kind: u8) -> Seq<Id>
    decreases triples.len(),
{
    if triples.len() == 0 {
        Seq::empty()
    } else {
        let rest = kind_ids(triples.drop_last(), kind);
        if triples.last().2 == kind {
            rest.push(triples.last().0)
        } else {
            rest
        }
    }
}

/// The ids of a list that lie below a count.
pub open spec fn ids_below(ids: Seq<Id>, n: int) -> Seq<Id>
    decreases ids.len(),
{
    if ids.len() == 0 {
        Seq::empty()
    } else {
        let rest = ids_below(ids.drop_last(), n);
        if ids.last() < n {
            rest.push(ids.last())
        } else {
            rest
        }
    }
}

/// The ids of a list that lie below a count.
fn keep_below(ids: &Vec<Id>, n: usize) -> (r: Vec<Id>)
    ensures
        r@ == ids_below(ids@, n as int),
        forall|i: int| 0 <= i < r@.len() ==> #[trigger] r@[i] < n,
{
    let mut out: Vec<Id> = Vec::new();
    let mut i: usize = 0;
    while i < ids.len()
        invariant
            i <= ids.len(),
            out@ == ids_below(ids@.take(i as int), n as int),
            forall|j: int| 0 <= j < out@.len() ==> #[trigger] out@[j] < n,
        decreases ids.len() - i,
    {
        assert(ids@.take(i + 1).drop_last() =~= ids@.take(i as int));
        if (ids[i] as usize) < n {
            out.push(ids[i]);
        }
        i = i + 1;
    }
    assert(ids@.take(i as int) =~= ids@);
    out
}

/// What comes of opening a file.
pub open spec fn open_outcome(pager: Pager, r: Result<DiskGraphStore, StoreError>) -> bool {
    let header = (super::pager::Header {
        string_table_root: 0,
        node_locs_root: 0,
        ..pager.header
    });
    match r {
        Ok(s) => {
            &&& s.wf()
            &&& s.base.pager == pager
            &&& super::io::file_graph(pager@, header) == Ok::<_, StoreError>(
                (s.base.node_seq(), s.base.edge_seq()),
            )
            &&& super::io::file_strings(pager@, header) == Ok::<_, StoreError>(s.base.strings@)
        },
        Err(e) => !super::lazy_base::readable(pager@, header) || (e
            == StoreError::Malformed && super::io::file_strings(pager@, header) is Ok
            && super::io::file_strings(pager@, header)->Ok_0.len() > u32::MAX),
    }
}

impl DiskGraphStore {
    /// The names of the nodes.
    pub open spec fn node_names(&self) -> Seq<Seq<char>> {
        crate::text::texts(self.node_user_ids@)
    }

    /// The names of the edges.
    pub open spec fn edge_names(&self) -> Seq<Seq<char>> {
        crate::text::texts(self.edge_user_ids@)
    }

    /// Names and directories are those of the file.
    pub open spec fn wf(&self) -> bool {
        let pages = self.base.pager@;
        let h = self.base.pager.header;
        &&& self.base.wf()
        &&& self.base.strings@.len() <= u32::MAX
        &&& self.node_user_ids@.len() == self.base.node_locs@.len()
        &&& self.edge_user_ids@.len() == self.base.edge_locs@.len()
        &&& forall|i: int|
            0 <= i < self.node_user_ids@.len() ==> (#[trigger] self.node_user_ids@[i])@
                == self.base.node(i).name
        &&& forall|i: int|
            0 <= i < self.edge_user_ids@.len() ==> (#[trigger] self.edge_user_ids@[i])@
                == self.base.edge(i).name
        &&& super::names::names_ok(self.node_ids@, self.node_names())
        &&& super::names::names_ok(self.edge_ids@, self.edge_names())
        &&& self.node_label_dir@ == entries_or_none(pages, h.label_index_root)
        &&& self.edge_label_dir@ == entries_or_none(pages, h.edge_label_index_root)
        &&& self.adj_dir@ == entries_or_none(pages, h.adjacency_root)
    }

    /// Opens a file. Strings and records are looked for on every page.
    pub fn open(pager: Pager) -> (r: Result<DiskGraphStore, StoreError>)
        requires
            pager.wf(),
        ensures
            open_outcome(pager, r),
    {
        let h = pager.header;
        let mut pager = pager;
        pager.header.string_table_root = 0;
        pager.header.node_locs_root = 0;
        let mut base = match LazyBase::open(pager) {
            Ok(b) => b,
            Err(e) => {
                return Err(e);
            },
        };
        let ghost b0 = base;
        base.pager.header = h;
        proof {
            assert(base.node_seq() =~= b0.node_seq());
            assert(base.edge_seq() =~= b0.edge_seq());
            assert forall|i: int| 0 <= i < base.edge_locs@.len() implies {
                let e = #[trigger] base.edge(i);
                e.src == base.edge_src@[i] && e.tgt == base.edge_tgt@[i] && e.directed
                    == base.edge_directed@[i]
            } by {
                assert(b0.edge(i).src == b0.edge_src@[i]);
            }
            assert(base.wf());
        }
        if base.strings.len() > u32::MAX as usize {
            return Err(StoreError::Malformed);
        }
        let mut node_user_ids: Vec<String> = Vec::new();
        let mut i: usize = 0;
        while i < base.node_locs.len()
            invariant
                i <= base.node_locs.len(),
                base.wf(),
                node_user_ids@.len() == i,
                forall|j: int|
                    0 <= j < i ==> (#[trigger] node_user_ids@[j])@ == base.node(j).name,
            decreases base.node_locs.len() - i,
        {
            node_user_ids.push(base.read_node_record(i as u32).name);
            i = i + 1;
        }
        let mut edge_user_ids: Vec<String> = Vec::new();
        let mut i: usize = 0;
        while i < base.edge_locs.len()
            invariant
                i <= base.edge_locs.len(),
                base.wf(),
                edge_user_ids@.len() == i,
                forall|j: int|
                    0 <= j < i ==> (#[trigger] edge_user_ids@[j])@ == base.edge(j).name,
            decreases base.edge_locs.len() - i,
        {
            edge_user_ids.push(base.read_edge_record(i as u32).element.name);
            i = i + 1;
        }
        let node_label_dir = match read_label_index_root(&base.pager, h.label_index_root) {
            Ok(v) => v,
            Err(_) => Vec::new(),
        };
        let edge_label_dir = match read_label_index_root(&base.pager, h.edge_label_index_root) {
            Ok(v) => v,
            Err(_) => Vec::new(),
        };
        let adj_dir = match read_adjacency_root(&base.pager, h.adjacency_root) {
            Ok(v) => v,
            Err(_) => Vec::new(),
        };
        let node_ids = index_names(&node_user_ids);
        let edge_ids = index_names(&edge_user_ids);
        Ok(
            DiskGraphStore {
                base,
                node_label_dir,
                edge_label_dir,
                adj_dir,
                node_ids,
                edge_ids,
                node_user_ids,
                edge_user_ids,
            },
        )
    }

    /// The node of a name: the last one that has it.
    pub open spec fn node_named(&self, name: Seq<char>) -> Option<NodeView> {
        if self.node_names().contains(name) {
            Some(self.base.node(super::string_table::last_index(self.node_names(), name)))
        } else {
            None
        }
    }

    /// The edge of a name: the last one that has it.
    pub open spec fn edge_named(&self, name: Seq<char>) -> Option<EdgeView> {
        if self.edge_names().contains(name) {
            Some(self.base.edge(super::string_table::last_index(self.edge_names(), name)))
        } else {
            None
        }
    }

    /// The names of all nodes.
    pub fn nodes(&self) -> (r: &Vec<String>)
        ensures
            crate::text::texts(r@) == self.node_names(),
    {
        &self.node_user_ids
    }

    /// The names of the directed edges.
    pub fn edges_directed(&self) -> (r: Vec<String>)
        requires
            self.wf(),
        ensures
            crate::text::texts(r@) == super::names::names_of(
                self.edge_names(),
                crate::model::graph::positions_of(self.base.edge_directed@, true),
            ),
    {
        proof {
            crate::model::graph::positions_in_range(self.base.edge_directed@, true);
        }
        let ids = list_positions(&self.base.edge_directed, true);
        copy_names(&self.edge_user_ids, ids.as_slice())
    }

    /// The names of the undirected edges.
    pub fn edges_undirected(&self) -> (r: Vec<String>)
        requires
            self.wf(),
        ensures
            crate::text::texts(r@) == super::names::names_of(
                self.edge_names(),
                crate::model::graph::positions_of(self.base.edge_directed@, false),
            ),
    {
        proof {
            crate::model::graph::positions_in_range(self.base.edge_directed@, false);
        }
        let ids = list_positions(&self.base.edge_directed, false);
        copy_names(&self.edge_user_ids, ids.as_slice())
    }

    /// The labels of the element of a name, a node before an edge.
    pub fn labels(&self, id: &str) -> (r: LabelType)
        requires
            self.wf(),
            self.node_named(id@) is Some || self.edge_named(id@) is Some,
        ensures
            r@ == (match self.node_named(id@) {
                Some(n) => n.labels,
                None => self.edge_named(id@)->Some_0.labels,
            }),
    {
        assert(self.node_ids@.contains_key(id@) <==> self.node_names().contains(id@));
        assert(self.edge_ids@.contains_key(id@) <==> self.edge_names().contains(id@));
        match self.node_ids.get(id) {
            Some(i) => self.base.node_labels(*i),
            None => match self.edge_ids.get(id) {
                Some(i) => self.base.edge_labels(*i),
                None => vstd::pervasive::unreached(),
            },
        }
    }

    /// The properties of the element of a name, a node before an edge.
    pub fn props(&self, id: &str) -> (r: Props)
        requires
            self.wf(),
            self.node_named(id@) is Some || self.edge_named(id@) is Some,
        ensures
            crate::model::value::props_view(r) == (match self.node_named(id@) {
                Some(n) => n.props,
                None => self.edge_named(id@)->Some_0.props,
            }),
    {
        assert(self.node_ids@.contains_key(id@) <==> self.node_names().contains(id@));
        assert(self.edge_ids@.contains_key(id@) <==> self.edge_names().contains(id@));
        match self.node_ids.get(id) {
            Some(i) => self.base.node_props(*i),
            None => match self.edge_ids.get(id) {
                Some(i) => self.base.edge_props(*i),
                None => vstd::pervasive::unreached(),
            },
        }
    }

    /// The names of the ends of an edge.
    pub fn endpoints(&self, edge_id: &str) -> (r: (&str, &str))
        requires
            self.wf(),
            self.edge_named(edge_id@) is Some,
        ensures
            r.0@ == self.node_names()[self.edge_named(edge_id@)->Some_0.src as int],
            r.1@ == self.node_names()[self.edge_named(edge_id@)->Some_0.tgt as int],
    {
        assert(self.edge_ids@.contains_key(edge_id@) <==> self.edge_names().contains(edge_id@));
        match self.edge_ids.get(edge_id) {
            Some(i) => {
                let k = *i as usize;
                proof {
                    assert(super::lazy_base::located_edge(
                        self.base.pager@,
                        self.base.edge_locs@[k as int],
                        self.base.strings@,
                    ) is Some);
                    assert(self.base.edge(k as int).src == self.base.edge_src@[k as int]);
                    assert(self.base.edge(k as int).tgt == self.base.edge_tgt@[k as int]);
                }
                (
                    self.node_user_ids[self.base.edge_src[k] as usize].as_str(),
                    self.node_user_ids[self.base.edge_tgt[k] as usize].as_str(),
                )
            },
            None => vstd::pervasive::unreached(),
        }
    }

    /// The name of the source of an edge.
    pub fn src(&self, edge_id: &str) -> (r: &str)
        requires
            self.wf(),
            self.edge_named(edge_id@) is Some,
        ensures
            r@ == self.node_names()[self.edge_named(edge_id@)->Some_0.src as int],
    {
        self.endpoints(edge_id).0
    }

    /// The name of the target of an edge.
    pub fn tgt(&self, edge_id: &str) -> (r: &str)
        requires
            self.wf(),
            self.edge_named(edge_id@) is Some,
        ensures
            r@ == self.node_names()[self.edge_named(edge_id@)->Some_0.tgt as int],
    {
        self.endpoints(edge_id).1
    }

    /// Whether an edge has a direction.
    pub fn is_directed(&self, edge_id: &str) -> (r: bool)
        requires
            self.wf(),
            self.edge_named(edge_id@) is Some,
        ensures
            r == self.edge_named(edge_id@)->Some_0.directed,
    {
        assert(self.edge_ids@.contains_key(edge_id@) <==> self.edge_names().contains(edge_id@));
        match self.edge_ids.get(edge_id) {
            Some(i) => self.base.is_directed(*i),
            None => vstd::pervasive::unreached(),
        }
    }

    /// An edge as a step of a path.
    pub fn edge_path_value(&self, edge_id: &str) -> (r: NamedStep)
        requires
            self.wf(),
            self.edge_named(edge_id@) is Some,
        ensures
            match r {
                NamedStep::EdgeDirectional(n) => self.edge_named(edge_id@)->Some_0.directed && n@
                    == edge_id@,
                NamedStep::EdgeUndirectional(n) => !self.edge_named(edge_id@)->Some_0.directed
                    && n@ == edge_id@,
            },
    {
        named_step(edge_id, self.is_directed(edge_id))
    }

    /// What a directory lists under a label.
    pub open spec fn looked_up(&self, label: Seq<char>, dir: Seq<(u32, u32)>) -> Option<Seq<Id>> {
        let sid = super::string_table::last_index(self.base.strings@, label);
        if sid >= 0 && first_under(dir, sid as u32) >= 0 {
            Some(ids_or_none(self.base.pager@, dir[first_under(dir, sid as u32)].1))
        } else {
            None
        }
    }

    fn label_index_lookup(&self, label: &str, dir: &Vec<(u32, u32)>) -> (r: Option<Vec<Id>>)
        requires
            self.wf(),
        ensures
            match r {
                Some(ids) => self.looked_up(label@, dir@) == Some(ids@),
                None => self.looked_up(label@, dir@) is None,
            },
    {
        proof {
            super::string_table::last_index_found(self.base.strings@, label@);
        }
        match self.base.strings.id_for_str(label) {
            None => None,
            Some(sid) => match find_entry(dir, sid) {
                None => None,
                Some(page) => match read_u32_chain(&self.base.pager, page) {
                    Ok(v) => Some(v),
                    Err(_) => Some(Vec::new()),
                },
            },
        }
    }

    /// The names of the nodes that the file lists under a label. Numbers that
    /// are no node's are passed over.
    pub fn nodes_with_label(&self, label: &str) -> (r: Option<Vec<String>>)
        requires
            self.wf(),
        ensures
            match r {
                Some(names) => self.looked_up(label@, self.node_label_dir@) is Some
                    && crate::text::texts(names@) == super::names::names_of(
                    self.node_names(),
                    ids_below(
                        self.looked_up(label@, self.node_label_dir@)->Some_0,
                        self.node_names().len() as int,
                    ),
                ),
                None => self.looked_up(label@, self.node_label_dir@) is None,
            },
    {
        match self.label_index_lookup(label, &self.node_label_dir) {
            Some(ids) => {
                let known = keep_below(&ids, self.node_user_ids.len());
                Some(copy_names(&self.node_user_ids, known.as_slice()))
            },
            None => None,
        }
    }

    /// The edges of one kind that the file lists under a label.
    pub open spec fn listed_edges(&self, label: Seq<char>, flag: bool) -> Seq<Id> {
        super::names::flagged_ids(
            ids_below(
                self.looked_up(label, self.edge_label_dir@)->Some_0,
                self.edge_names().len() as int,
            ),
            self.base.edge_directed@,
            flag,
        )
    }

    fn edges_with_label(&self, label: &str, flag: bool) -> (r: Option<Vec<String>>)
        requires
            self.wf(),
        ensures
            match r {
                Some(names) => self.looked_up(label@, self.edge_label_dir@) is Some
                    && crate::text::texts(names@) == super::names::names_of(
                    self.edge_names(),
                    self.listed_edges(label@, flag),
                ),
                None => self.looked_up(label@, self.edge_label_dir@) is None,
            },
    {
        match self.label_index_lookup(label, &self.edge_label_dir) {
            Some(ids) => {
                let known = keep_below(&ids, self.edge_user_ids.len());
                let kept = keep_flagged(&known, &self.base.edge_directed, flag);
                Some(copy_names(&self.edge_user_ids, kept.as_slice()))
            },
            None => None,
        }
    }

    /// The names of the directed edges that the file lists under a label.
    pub fn directed_edges_with_label(&self, label: &str) -> (r: Option<Vec<String>>)
        requires
            self.wf(),
        ensures
            match r {
                Some(names) => self.looked_up(label@, self.edge_label_dir@) is Some
                    && crate::text::texts(names@) == super::names::names_of(
                    self.edge_names(),
                    self.listed_edges(label@, true),
                ),
                None => self.looked_up(label@, self.edge_label_dir@) is None,
            },
    {
        self.edges_with_label(label, true)
    }

    /// The names of the undirected edges that the file lists under a label.
    pub fn undirected_edges_with_label(&self, label: &str) -> (r: Option<Vec<String>>)
        requires
            self.wf(),
        ensures
            match r {
                Some(names) => self.looked_up(label@, self.edge_label_dir@) is Some
                    && crate::text::texts(names@) == super::names::names_of(
                    self.edge_names(),
                    self.listed_edges(label@, false),
                ),
                None => self.looked_up(label@, self.edge_label_dir@) is None,
            },
    {
        self.edges_with_label(label, false)
    }

    /// The edges of a side that the file lists at a node.
    pub open spec fn adj_entries(&self, node: Id, side: Side) -> Seq<Id> {
        let i = first_under(self.adj_dir@, node);
        if i >= 0 {
            match super::disk_index::triple_list(self.base.pager@, self.adj_dir@[i].1) {
                Ok(t) => kind_ids(t, side_code(side)),
                Err(_) => Seq::empty(),
            }
        } else {
            Seq::empty()
        }
    }

    fn get_adj_entries(&self, node: Id, side: Side) -> (r: Vec<Id>)
        requires
            self.wf(),
        ensures
            r@ == self.adj_entries(node, side),
    {
        let kind: u8 = match side {
            Side::Outgoing => 0,
            Side::Incoming => 1,
            Side::Undirected => 2,
        };
        match find_entry(&self.adj_dir, node) {
            None => Vec::new(),
            Some(page) => match read_triple_chain(&self.base.pager, page) {
                Err(_) => Vec::new(),
                Ok(triples) => {
                    let mut out: Vec<Id> = Vec::new();
                    let mut i: usize = 0;
                    while i < triples.len()
                        invariant
                            i <= triples.len(),
                            out@ == kind_ids(triples@.take(i as int), kind),
                        decreases triples.len() - i,
                    {
                        assert(triples@.take(i + 1).drop_last() =~= triples@.take(i as int));
                        if triples[i].2 == kind {
                            out.push(triples[i].0);
                        }
                        i = i + 1;
                    }
                    assert(triples@.take(i as int) =~= triples@);
                    out
                },
            },
        }
    }

    /// The edges of a side at the node of a name, none where there is no such
    /// node.
    pub open spec fn edges_at(&self, side: Side, name: Seq<char>) -> Seq<Id> {
        if self.node_names().contains(name) {
            ids_below(
                self.adj_entries(
                    super::string_table::last_index(self.node_names(), name) as Id,
                    side,
                ),
                self.edge_names().len() as int,
            )
        } else {
            Seq::empty()
        }
    }

    fn names_at(&self, side: Side, name: &str) -> (r: Vec<String>)
        requires
            self.wf(),
        ensures
            crate::text::texts(r@) == super::names::names_of(
                self.edge_names(),
                self.edges_at(side, name@),
            ),
    {
        assert(self.node_ids@.contains_key(name@) <==> self.node_names().contains(name@));
        match self.node_ids.get(name) {
            Some(id) => {
                let ids = self.get_adj_entries(*id, side);
                let known = keep_below(&ids, self.edge_user_ids.len());
                copy_names(&self.edge_user_ids, known.as_slice())
            },
            None => {
                let none: Vec<String> = Vec::new();
                assert(crate::text::texts(none@) =~= super::names::names_of(
                    self.edge_names(),
                    self.edges_at(side, name@),
                ));
                none
            },
        }
    }

    /// The names of the directed edges from a node.
    pub fn outgoing_edges(&self, node_id: &str) -> (r: Vec<String>)
        requires
            self.wf(),
        ensures
            crate::text::texts(r@) == super::names::names_of(
                self.edge_names(),
                self.edges_at(Side::Outgoing, node_id@),
            ),
    {
        self.names_at(Side::Outgoing, node_id)
    }

    /// The names of the directed edges to a node.
    pub fn incoming_edges(&self, node_id: &str) -> (r: Vec<String>)
        requires
            self.wf(),
        ensures
            crate::text::texts(r@) == super::names::names_of(
                self.edge_names(),
                self.edges_at(Side::Incoming, node_id@),
            ),
    {
        self.names_at(Side::Incoming, node_id)
    }

    /// The names of the undirected edges at a node.
    pub fn undirected_edges_of(&self, node_id: &str) -> (r: Vec<String>)
        requires
            self.wf(),
        ensures
            crate::text::texts(r@) == super::names::names_of(
                self.edge_names(),
                self.edges_at(Side::Undirected, node_id@),
            ),
    {
        self.names_at(Side::Undirected, node_id)
    }
}

/// A graph that was saved is there again when its file is opened.
#[verifier::spinoff_prover]
#[verifier::rlimit(40)]
pub proof fn saved_opens(
    pager: Pager,
    r: Result<DiskGraphStore, StoreError>,
    strings: Seq<Seq<char>>,
    nodes: Seq<NodeView>,
    edges: Seq<EdgeView>,
)
    requires
        super::io::saved(pager@, pager.header, strings, nodes, edges),
        open_outcome(pager, r),
    ensures
        r is Ok,
        r->Ok_0.base.node_seq() == nodes,
        r->Ok_0.base.edge_seq() == edges,
        r->Ok_0.base.strings@ == strings,
{
    let header = super::pager::Header { string_table_root: 0, node_locs_root: 0, ..pager.header };
    super::io::saved_by_scan(pager@, pager.header, strings, nodes, edges, header);
    assert(super::lazy_base::readable(pager@, header));
    match r {
        Ok(s) => {
            assert(super::io::file_graph(pager@, header) == Ok::<_, StoreError>(
                (s.base.node_seq(), s.base.edge_seq()),
            ));
        },
        Err(_) => {},
    }
}

/// What a directory of a saved file lists under a label.
proof fn directory_right(
    s: DiskGraphStore,
    root: u32,
    labels: Seq<LabelTypeView>,
    label: Seq<char>,
)
    requires
        s.wf(),
        labels.len() <= u32::MAX,
        super::io::label_index_ok(s.base.pager@, root, s.base.strings@, labels),
        super::lazy_index::labels_in(labels, s.base.strings@),
    ensures
        s.base.strings@.no_duplicates() ==> s.looked_up(
            label,
            entries_or_none(s.base.pager@, root),
        ) == right_list(labels, label),
        ids_below(super::labels::labelled(labels, label), labels.len() as int)
            == super::labels::labelled(labels, label),
{
    let pages = s.base.pager@;
    let strings = s.base.strings@;
    let dir = entries_or_none(pages, root);
    let list = super::labels::labelled(labels, label);
    assert forall|i: int| 0 <= i < list.len() implies #[trigger] list[i] < labels.len() by {
        super::labels::labelled_elements(labels, label, list[i]);
        assert(list.contains(list[i]));
    }
    all_below(list, labels.len() as int);
    super::string_table::last_index_found(strings, label);
    let sid = super::string_table::last_index(strings, label);
    if strings.no_duplicates() {
        if list.len() > 0 {
            let id = list[0];
            assert(list.contains(id));
            super::labels::labelled_elements(labels, label, id);
            assert(labels[id as int].required().contains(label));
            let known = choose|k: u32| k < strings.len() && #[trigger] strings[k as int] == label;
            assert(strings.contains(label));
            assert(known == sid);
            let i = choose|i: int| 0 <= i < dir.len() && (#[trigger] dir[i]).0 == known;
            assert forall|j: int| 0 <= j < i implies (#[trigger] dir[j]).0 != known by {
                assert(dir[j].0 != dir[i].0);
            }
            first_found(dir, known, i);
        } else if sid >= 0 {
            assert forall|j: int| 0 <= j < dir.len() implies (#[trigger] dir[j]).0 != sid as u32 by {
                assert(super::labels::labelled(labels, strings[dir[j].0 as int]).len() > 0);
            }
            first_missing(dir, sid as u32);
        }
    }
}

/// The elements that carry a label, where there are any.
pub open spec fn right_list(labels: Seq<LabelTypeView>, label: Seq<char>) -> Option<Seq<Id>> {
    if super::labels::labelled(labels, label).len() > 0 {
        Some(super::labels::labelled(labels, label))
    } else {
        None
    }
}

proof fn all_below(ids: Seq<Id>, n: int)
    requires
        forall|i: int| 0 <= i < ids.len() ==> #[trigger] ids[i] < n,
    ensures
        ids_below(ids, n) == ids,
    decreases ids.len(),
{
    if ids.len() > 0 {
        assert forall|i: int| 0 <= i < ids.drop_last().len() implies #[trigger] ids.drop_last()[i]
            < n by {
            assert(ids[i] < n);
        }
        all_below(ids.drop_last(), n);
        assert(ids[ids.len() - 1] < n);
        assert(ids.drop_last().push(ids.last()) =~= ids);
    }
}

/// A store on a saved file.
pub open spec fn on_saved(s: DiskGraphStore, nodes: Seq<NodeView>, edges: Seq<EdgeView>) -> bool {
    &&& s.wf()
    &&& s.base.node_seq() == nodes
    &&& s.base.edge_seq() == edges
    &&& super::io::saved(s.base.pager@, s.base.pager.header, s.base.strings@, nodes, edges)
}

/// In a saved file a label is answered with the elements that carry it.
pub proof fn labels_answered(
    s: DiskGraphStore,
    nodes: Seq<NodeView>,
    edges: Seq<EdgeView>,
    label: Seq<char>,
)
    requires
        on_saved(s, nodes, edges),
    ensures
        ({
            let nl = super::writer::node_label_views(nodes);
            let el = super::writer::edge_label_views(edges);
            let found = super::labels::labelled(el, label);
            &&& s.looked_up(label, s.node_label_dir@) == right_list(nl, label)
            &&& ids_below(super::labels::labelled(nl, label), s.node_names().len() as int)
                == super::labels::labelled(nl, label)
            &&& s.looked_up(label, s.edge_label_dir@) == right_list(el, label)
            &&& forall|flag: bool|
                found.len() > 0 ==> #[trigger] s.listed_edges(label, flag)
                    == super::names::flagged_ids(found, s.base.edge_directed@, flag)
        }),
{
    let nl = super::writer::node_label_views(nodes);
    let el = super::writer::edge_label_views(edges);
    s.base.labels_known();
    directory_right(s, s.base.pager.header.label_index_root, nl, label);
    directory_right(s, s.base.pager.header.edge_label_index_root, el, label);
}

/// The edges of a kind at a node are those of the side.
proof fn kinds_at(edges: Seq<EdgeView>, node: int, side: Side)
    ensures
        kind_ids(super::adjacency::node_triples(edges, node), side_code(side))
            == super::adjacency::at_node(super::adjacency::edge_pairs(edges, side), node),
    decreases edges.len(),
{
    reveal_with_fuel(kind_ids, 3);
    reveal_with_fuel(super::adjacency::at_node, 3);
    if edges.len() > 0 {
        let rest = edges.drop_last();
        kinds_at(rest, node, side);
        let e = edges.last();
        let id = (edges.len() - 1) as u32;
        let (there, back): (u8, u8) = if e.directed {
            (0u8, 1u8)
        } else {
            (2u8, 2u8)
        };
        let triples = super::adjacency::node_triples(rest, node);
        let one = if e.src == node {
            triples.push((id, e.tgt, there))
        } else {
            triples
        };
        assert(triples.push((id, e.tgt, there)).drop_last() =~= triples);
        assert(one.push((id, e.src, back)).drop_last() =~= one);
        let pairs = super::adjacency::edge_pairs(rest, side);
        assert(pairs.push((e.src, id)).drop_last() =~= pairs);
        assert(pairs.push((e.tgt, id)).drop_last() =~= pairs);
        assert(pairs.push((e.src, id)).push((e.tgt, id)).drop_last() =~= pairs.push((e.src, id)));
    }
}

/// The entries of an adjacency index: one for each node with edges, in order.
proof fn index_keys(edges: Seq<EdgeView>, nodes: nat)
    requires
        nodes <= u32::MAX,
    ensures
        ({
            let entries = super::adjacency::triple_index(edges, nodes);
            &&& forall|i: int, j: int|
                0 <= i < j < entries.len() ==> (#[trigger] entries[i]).0 < (#[trigger] entries[j]).0
            &&& forall|i: int|
                0 <= i < entries.len() ==> (#[trigger] entries[i]).0 < nodes && entries[i].1
                    == super::adjacency::node_triples(edges, entries[i].0 as int)
            &&& forall|node: u32|
                node < nodes && (#[trigger] super::adjacency::node_triples(
                    edges,
                    node as int,
                )).len() > 0 ==> exists|i: int|
                    0 <= i < entries.len() && (#[trigger] entries[i]).0 == node
        }),
    decreases nodes,
{
    if nodes > 0 {
        index_keys(edges, (nodes - 1) as nat);
        let rest = super::adjacency::triple_index(edges, (nodes - 1) as nat);
        let entries = super::adjacency::triple_index(edges, nodes);
        assert forall|node: u32|
            node < nodes && (#[trigger] super::adjacency::node_triples(edges, node as int)).len()
                > 0 implies exists|i: int|
            0 <= i < entries.len() && (#[trigger] entries[i]).0 == node by {
            if node < nodes - 1 {
                let i = choose|i: int| 0 <= i < rest.len() && (#[trigger] rest[i]).0 == node;
                assert(entries[i] == rest[i]);
            } else {
                assert(entries[entries.len() - 1].0 == node);
            }
        }
    }
}

/// In a saved file the edges at a node are answered with those that have it as
/// an end of the side.
pub proof fn adjacency_answered(
    s: DiskGraphStore,
    nodes: Seq<NodeView>,
    edges: Seq<EdgeView>,
    node: Id,
    side: Side,
)
    requires
        on_saved(s, nodes, edges),
        node < nodes.len(),
    ensures
        s.adj_entries(node, side) == super::adjacency::at_node(
            super::adjacency::edge_pairs(edges, side),
            node as int,
        ),
        ids_below(s.adj_entries(node, side), edges.len() as int) == s.adj_entries(node, side),
{
    let entries = super::adjacency::triple_index(edges, nodes.len());
    let dir = s.adj_dir@;
    let list = super::adjacency::at_node(
        super::adjacency::edge_pairs(edges, side),
        node as int,
    );
    index_keys(edges, nodes.len());
    kinds_at(edges, node as int, side);
    let triples = super::adjacency::node_triples(edges, node as int);
    if triples.len() > 0 {
        let i = choose|i: int| 0 <= i < entries.len() && (#[trigger] entries[i]).0 == node;
        assert(dir[i].0 == entries[i].0);
        assert forall|j: int| 0 <= j < i implies (#[trigger] dir[j]).0 != node by {
            assert(dir[j].0 == entries[j].0);
            assert(entries[j].0 < entries[i].0);
        }
        first_found(dir, node, i);
    } else {
        assert forall|j: int| 0 <= j < dir.len() implies (#[trigger] dir[j]).0 != node by {
            assert(dir[j].0 == entries[j].0);
            assert(super::disk_index::triple_list(s.base.pager@, dir[j].1) == Ok::<_, StoreError>(
                entries[j].1,
            ));
            index_filled(edges, nodes.len(), j);
        }
        first_missing(dir, node);
    }
    assert forall|i: int| 0 <= i < list.len() implies #[trigger] list[i] < edges.len() by {
        super::adjacency::edges_at_node(edges, side, node as int, list[i]);
        assert(list.contains(list[i]));
    }
    all_below(list, edges.len() as int);
}

/// No entry of an adjacency index is without edges.
proof fn index_filled(edges: Seq<EdgeView>, nodes: nat, i: int)
    requires
        0 <= i < super::adjacency::triple_index(edges, nodes).len(),
    ensures
        super::adjacency::triple_index(edges, nodes)[i].1.len() > 0,
    decreases nodes,
{
    if nodes > 0 {
        let rest = super::adjacency::triple_index(edges, (nodes - 1) as nat);
        if i < rest.len() {
            index_filled(edges, (nodes - 1) as nat, i);
        }
    }
}

} // verus!
