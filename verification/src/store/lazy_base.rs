//! The graph of a file whose records are read one at a time: where each record
//! is, and between which nodes each edge runs.

use vstd::prelude::*;

use super::cells::{collect_cells, collect_places, copy_cell};
use super::pager::{check_cells, Header, PageType, Pager, StoreError};
use super::record::{read_edge, read_node};
use super::string_table::StringTable;
use super::disk_index::{read_pair_list, read_u32_lists};
use super::io::{element_of, load_strings, Element};
use crate::model::graph::{list_ids, list_positions};
use crate::model::graph_access::{EdgeView, GraphAccess, GraphModel, NodeView};
use crate::model::value::{Id, Props};
use crate::typing::label_type::LabelType;

verus! {

/// The graph of a file.
pub struct LazyBase {
    pub pager: Pager,
    pub strings: StringTable,
    pub node_locs: Vec<(u32, u16)>,
    pub edge_locs: Vec<(u32, u16)>,
    pub edge_src: Vec<u32>,
    pub edge_tgt: Vec<u32>,
    pub edge_directed: Vec<bool>,
}

/// The node at a place.
pub open spec fn located_node(
    pages: Seq<Seq<u8>>,
    loc: (u32, u16),
    strings: Seq<Seq<char>>,
) -> Option<NodeView> {
    super::io::node_at(pages, loc.0, loc.1 as u32, strings)
}

/// The edge at a place.
pub open spec fn located_edge(
    pages: Seq<Seq<u8>>,
    loc: (u32, u16),
    strings: Seq<Seq<char>>,
) -> Option<EdgeView> {
    super::io::edge_at(pages, loc.0, loc.1 as u32, strings)
}

/// Every place has a node.
pub open spec fn nodes_located(
    pages: Seq<Seq<u8>>,
    locs: Seq<(u32, u16)>,
    strings: Seq<Seq<char>>,
) -> bool {
    forall|i: int|
        0 <= i < locs.len() ==> (located_node(pages, #[trigger] locs[i], strings)) is Some
}

/// Every place has an edge between nodes below a count.
pub open spec fn edges_located(
    pages: Seq<Seq<u8>>,
    locs: Seq<(u32, u16)>,
    strings: Seq<Seq<char>>,
    nodes: int,
) -> bool {
    forall|i: int|
        0 <= i < locs.len() ==> {
            let e = located_edge(pages, #[trigger] locs[i], strings);
            e is Some && e->Some_0.src < nodes && e->Some_0.tgt < nodes
        }
}

/// The cell at a place.
fn cell_copy(pager: &Pager, loc: (u32, u16)) -> (r: Option<Vec<u8>>)
    requires
        pager.wf(),
    ensures
        match r {
            Some(c) => super::cells::cell_at(pager@, loc.0 as int, loc.1 as int) == Some(c@),
            None => super::cells::cell_at(pager@, loc.0 as int, loc.1 as int) is None,
        },
{
    match pager.read_page(loc.0) {
        Err(_) => None,
        Ok(page) => {
            assert(page@.len() == super::pager::PAGE_SIZE);
            if !check_cells(page) || loc.1 >= super::bytes::get_u16(page, 2) {
                None
            } else {
                Some(copy_cell(page, loc.1))
            }
        },
    }
}

/// Reads the node at a place.
fn node_read(pager: &Pager, loc: (u32, u16), strings: &StringTable) -> (r: Option<Element>)
    requires
        pager.wf(),
    ensures
        match r {
            Some(e) => located_node(pager@, loc, strings@) == Some(e@),
            None => located_node(pager@, loc, strings@) is None,
        },
{
    match cell_copy(pager, loc) {
        None => None,
        Some(c) => match read_node(c.as_slice()) {
            Some((rec, _)) => element_of(&rec, strings),
            None => None,
        },
    }
}

/// An edge as it is read.
pub struct EdgeElement {
    pub element: Element,
    pub src: u32,
    pub tgt: u32,
    pub directed: bool,
}

impl EdgeElement {
    /// The value.
    pub open spec fn view(&self) -> EdgeView {
        EdgeView {
            name: self.element.name@,
            labels: self.element.labels@,
            props: crate::model::value::props_view(self.element.props),
            src: self.src,
            tgt: self.tgt,
            directed: self.directed,
        }
    }
}

/// Reads the edge at a place.
fn edge_read(pager: &Pager, loc: (u32, u16), strings: &StringTable) -> (r: Option<EdgeElement>)
    requires
        pager.wf(),
    ensures
        match r {
            Some(e) => located_edge(pager@, loc, strings@) == Some(e@),
            None => located_edge(pager@, loc, strings@) is None,
        },
{
    match cell_copy(pager, loc) {
        None => None,
        Some(c) => match read_edge(c.as_slice()) {
            Some(rec) => match element_of(&rec.node, strings) {
                Some(element) => Some(
                    EdgeElement {
                        element,
                        src: rec.src_internal_id,
                        tgt: rec.tgt_internal_id,
                        directed: rec.directed,
                    },
                ),
                None => None,
            },
            None => None,
        },
    }
}

impl LazyBase {
    /// A node.
    pub open spec fn node(&self, i: int) -> NodeView {
        located_node(self.pager@, self.node_locs@[i], self.strings@)->Some_0
    }

    /// An edge.
    pub open spec fn edge(&self, i: int) -> EdgeView {
        located_edge(self.pager@, self.edge_locs@[i], self.strings@)->Some_0
    }

    /// The nodes in order.
    pub open spec fn node_seq(&self) -> Seq<NodeView> {
        Seq::new(self.node_locs@.len(), |i: int| self.node(i))
    }

    /// The edges in order.
    pub open spec fn edge_seq(&self) -> Seq<EdgeView> {
        Seq::new(self.edge_locs@.len(), |i: int| self.edge(i))
    }

    /// Every place has its record, and the columns say what the records say.
    pub open spec fn wf(&self) -> bool {
        &&& self.pager.wf()
        &&& self.node_locs@.len() <= u32::MAX
        &&& self.edge_locs@.len() <= u32::MAX
        &&& self.edge_src@.len() == self.edge_locs@.len()
        &&& self.edge_tgt@.len() == self.edge_locs@.len()
        &&& self.edge_directed@.len() == self.edge_locs@.len()
        &&& nodes_located(self.pager@, self.node_locs@, self.strings@)
        &&& edges_located(
            self.pager@,
            self.edge_locs@,
            self.strings@,
            self.node_locs@.len() as int,
        )
        &&& forall|i: int|
            0 <= i < self.edge_locs@.len() ==> {
                let e = #[trigger] self.edge(i);
                e.src == self.edge_src@[i] && e.tgt == self.edge_tgt@[i] && e.directed
                    == self.edge_directed@[i]
            }
    }

    /// Reads a node.
    pub fn read_node_record(&self, id: u32) -> (r: Element)
        requires
            self.wf(),
            id < self.node_locs@.len(),
        ensures
            r@ == self.node(id as int),
    {
        match node_read(&self.pager, self.node_locs[id as usize], &self.strings) {
            Some(e) => e,
            None => {
                assert(located_node(
                    self.pager@,
                    self.node_locs@[id as int],
                    self.strings@,
                ) is Some);
                vstd::pervasive::unreached()
            },
        }
    }

    /// Reads an edge.
    pub fn read_edge_record(&self, id: u32) -> (r: EdgeElement)
        requires
            self.wf(),
            id < self.edge_locs@.len(),
        ensures
            r@ == self.edge(id as int),
    {
        match edge_read(&self.pager, self.edge_locs[id as usize], &self.strings) {
            Some(e) => e,
            None => {
                assert(located_edge(
                    self.pager@,
                    self.edge_locs@[id as int],
                    self.strings@,
                ) is Some);
                vstd::pervasive::unreached()
            },
        }
    }

    /// The graph with records at the given places. Nothing where a place has no
    /// record, or an edge an unknown end, or ids do not fit.
    fn at_places(
        pager: Pager,
        strings: StringTable,
        node_locs: Vec<(u32, u16)>,
        edge_locs: Vec<(u32, u16)>,
    ) -> (r: Option<LazyBase>)
        requires
            pager.wf(),
        ensures
            match r {
                Some(b) => {
                    &&& b.wf()
                    &&& b.pager == pager
                    &&& b.strings == strings
                    &&& b.node_locs == node_locs
                    &&& b.edge_locs == edge_locs
                },
                None => !(node_locs@.len() <= u32::MAX && edge_locs@.len() <= u32::MAX
                    && nodes_located(pager@, node_locs@, strings@) && edges_located(
                    pager@,
                    edge_locs@,
                    strings@,
                    node_locs@.len() as int,
                )),
            },
    {
        if node_locs.len() > u32::MAX as usize || edge_locs.len() > u32::MAX as usize {
            return None;
        }
        let mut i: usize = 0;
        while i < node_locs.len()
            invariant
                i <= node_locs.len(),
                pager.wf(),
                forall|j: int|
                    0 <= j < i ==> (located_node(
                        pager@,
                        #[trigger] node_locs@[j],
                        strings@,
                    )) is Some,
            decreases node_locs.len() - i,
        {
            match node_read(&pager, node_locs[i], &strings) {
                Some(_) => {},
                None => {
                    assert(located_node(pager@, node_locs@[i as int], strings@) is None);
                    return None;
                },
            }
            i = i + 1;
        }
        let mut src: Vec<u32> = Vec::new();
        let mut tgt: Vec<u32> = Vec::new();
        let mut dir: Vec<bool> = Vec::new();
        let mut i: usize = 0;
        while i < edge_locs.len()
            invariant
                i <= edge_locs.len(),
                pager.wf(),
                node_locs@.len() <= u32::MAX,
                src@.len() == i,
                tgt@.len() == i,
                dir@.len() == i,
                forall|j: int|
                    0 <= j < i ==> {
                        let e = located_edge(pager@, #[trigger] edge_locs@[j], strings@);
                        &&& e is Some
                        &&& e->Some_0.src < node_locs@.len()
                        &&& e->Some_0.tgt < node_locs@.len()
                        &&& e->Some_0.src == src@[j]
                        &&& e->Some_0.tgt == tgt@[j]
                        &&& e->Some_0.directed == dir@[j]
                    },
            decreases edge_locs.len() - i,
        {
            match edge_read(&pager, edge_locs[i], &strings) {
                Some(e) => {
                    if e.src as usize >= node_locs.len() || e.tgt as usize >= node_locs.len() {
                        assert(located_edge(pager@, edge_locs@[i as int], strings@) == Some(e@));
                        return None;
                    }
                    src.push(e.src);
                    tgt.push(e.tgt);
                    dir.push(e.directed);
                },
                None => {
                    assert(located_edge(pager@, edge_locs@[i as int], strings@) is None);
                    return None;
                },
            }
            i = i + 1;
        }
        Some(
            LazyBase {
                pager,
                strings,
                node_locs,
                edge_locs,
                edge_src: src,
                edge_tgt: tgt,
                edge_directed: dir,
            },
        )
    }
}

impl GraphAccess for LazyBase {
    open spec fn model(&self) -> GraphModel {
        GraphModel {
            node_ids: crate::model::graph::ids_below(self.node_locs@.len()),
            nodes: Map::new(
                |id: Id| id < self.node_locs@.len(),
                |id: Id| self.node(id as int),
            ),
            directed: crate::model::graph::positions_of(self.edge_directed@, true),
            undirected: crate::model::graph::positions_of(self.edge_directed@, false),
            edges: Map::new(
                |id: Id| id < self.edge_locs@.len(),
                |id: Id| self.edge(id as int),
            ),
        }
    }

    open spec fn sound(&self) -> bool {
        self.wf()
    }

    proof fn sound_model(&self)
    {
        crate::model::graph::positions_in_range(self.edge_directed@, true);
        crate::model::graph::positions_in_range(self.edge_directed@, false);
        let m = self.model();
        assert forall|i: int| 0 <= i < m.edge_ids().len() implies m.edge_known(
            #[trigger] m.edge_ids()[i],
        ) by {
            let id = m.edge_ids()[i];
            if i < m.directed.len() {
                assert(id == m.directed[i]);
            } else {
                assert(id == m.undirected[i - m.directed.len()]);
            }
            assert(located_edge(self.pager@, self.edge_locs@[id as int], self.strings@) is Some);
        }
        assert forall|i: int| 0 <= i < m.node_ids.len() implies m.nodes.contains_key(
            #[trigger] m.node_ids[i],
        ) by {
            assert(m.node_ids[i] == i as Id);
        }
    }

    fn nodes(&self) -> (r: Vec<Id>) {
        list_ids(self.node_locs.len())
    }

    fn edges_directed(&self) -> (r: Vec<Id>) {
        list_positions(&self.edge_directed, true)
    }

    fn edges_undirected(&self) -> (r: Vec<Id>) {
        list_positions(&self.edge_directed, false)
    }

    #[verifier::spinoff_prover]
    fn node_name(&self, id: Id) -> (r: String) {
        assert(self.sound());
        assert(self.wf());
        self.read_node_record(id).name
    }

    fn node_labels(&self, id: Id) -> (r: LabelType) {
        assert(self.wf());
        self.read_node_record(id).labels
    }

    fn node_props(&self, id: Id) -> (r: Props) {
        assert(self.wf());
        self.read_node_record(id).props
    }

    fn edge_name(&self, id: Id) -> (r: String) {
        assert(self.wf());
        self.read_edge_record(id).element.name
    }

    fn edge_labels(&self, id: Id) -> (r: LabelType) {
        assert(self.wf());
        self.read_edge_record(id).element.labels
    }

    fn edge_props(&self, id: Id) -> (r: Props) {
        assert(self.wf());
        self.read_edge_record(id).element.props
    }

    fn src(&self, id: Id) -> (r: Id) {
        assert(self.edge(id as int).src == self.edge_src@[id as int]);
        self.edge_src[id as usize]
    }

    fn tgt(&self, id: Id) -> (r: Id) {
        assert(self.edge(id as int).tgt == self.edge_tgt@[id as int]);
        self.edge_tgt[id as usize]
    }

    fn is_directed(&self, id: Id) -> (r: bool) {
        assert(self.edge(id as int).directed == self.edge_directed@[id as int]);
        self.edge_directed[id as usize]
    }
}

/// The header names everything by which records are found without looking at
/// every page.
pub open spec fn indexed_file(header: Header) -> bool {
    header.string_table_root != 0 && header.node_locs_root != 0 && header.edge_topo_root != 0
}

/// Places as pairs of numbers.
pub open spec fn loc_pairs(locs: Seq<(u32, u16)>) -> Seq<(u32, u32)> {
    Seq::new(locs.len(), |i: int| (locs[i].0, locs[i].1 as u32))
}

/// Reads the places of the nodes. Numbers of cells that do not fit are refused.
pub fn read_node_locs(pager: &Pager, root: u32) -> (r: Result<Vec<(u32, u16)>, StoreError>)
    requires
        pager.wf(),
    ensures
        match r {
            Ok(v) => super::disk_index::pair_list(pager@, root) == Ok::<_, StoreError>(
                loc_pairs(v@),
            ),
            Err(e) => super::disk_index::pair_list(pager@, root) == Err::<Seq<(u32, u32)>, _>(e)
                || (e == StoreError::Malformed && super::disk_index::pair_list(pager@, root) is Ok
                && exists|i: int|
                0 <= i < super::disk_index::pair_list(pager@, root)->Ok_0.len() && (
                #[trigger] super::disk_index::pair_list(pager@, root)->Ok_0[i]).1 > u16::MAX),
        },
{
    let pairs = match read_pair_list(pager, root) {
        Ok(v) => v,
        Err(e) => {
            return Err(e);
        },
    };
    let mut out: Vec<(u32, u16)> = Vec::new();
    let mut i: usize = 0;
    while i < pairs.len()
        invariant
            i <= pairs.len(),
            super::disk_index::pair_list(pager@, root) == Ok::<_, StoreError>(pairs@),
            out@.len() == i,
            forall|j: int|
                0 <= j < i ==> #[trigger] pairs@[j] == (out@[j].0, out@[j].1 as u32),
        decreases pairs.len() - i,
    {
        if pairs[i].1 > u16::MAX as u32 {
            assert(super::disk_index::pair_list(pager@, root)->Ok_0[i as int].1 > u16::MAX);
            return Err(StoreError::Malformed);
        }
        out.push((pairs[i].0, pairs[i].1 as u16));
        i = i + 1;
    }
    assert(loc_pairs(out@) =~= pairs@);
    Ok(out)
}

/// What is known of the edges without reading them.
pub struct EdgeTopo {
    pub locs: Vec<(u32, u16)>,
    pub src: Vec<u32>,
    pub tgt: Vec<u32>,
    pub directed: Vec<bool>,
}

/// Lists that have the form of places, ends and directions of edges.
pub open spec fn topo_form(lists: Seq<Seq<u32>>) -> bool {
    &&& lists.len() == 5
    &&& forall|k: int| 0 <= k < 5 ==> (#[trigger] lists[k]).len() == lists[0].len()
    &&& forall|i: int| 0 <= i < lists[0].len() ==> #[trigger] lists[1][i] <= u16::MAX
    &&& forall|i: int| 0 <= i < lists[0].len() ==> #[trigger] lists[4][i] <= 1
}

impl EdgeTopo {
    /// The lists.
    pub open spec fn lists(&self) -> Seq<Seq<u32>> {
        super::io::topo_lists(self.locs@, self.src@, self.tgt@, self.directed@)
    }
}

/// Reads places, ends and directions of the edges.
pub fn read_edge_topo(pager: &Pager, root: u32) -> (r: Result<EdgeTopo, StoreError>)
    requires
        pager.wf(),
    ensures
        ({
            let roots = super::disk_index::u32_list(pager@, root);
            match r {
                Ok(t) => {
                    &&& roots is Ok
                    &&& super::disk_index::u32_lists(pager@, roots->Ok_0) == Ok::<_, StoreError>(
                        t.lists(),
                    )
                    &&& t.src@.len() == t.locs@.len()
                    &&& t.tgt@.len() == t.locs@.len()
                    &&& t.directed@.len() == t.locs@.len()
                },
                Err(e) => match roots {
                    Err(f) => e == f,
                    Ok(list) => match super::disk_index::u32_lists(pager@, list) {
                        Err(f) => e == f,
                        Ok(lists) => e == StoreError::Malformed && !topo_form(lists),
                    },
                },
            }
        }),
{
    let lists = match read_u32_lists(pager, root) {
        Ok(v) => v,
        Err(e) => {
            return Err(e);
        },
    };
    let ghost views = super::disk_index::list_views(lists@);
    if lists.len() != 5 {
        return Err(StoreError::Malformed);
    }
    let n = lists[0].len();
    assert(views[0] == lists@[0]@ && views[1] == lists@[1]@ && views[2] == lists@[2]@ && views[3]
        == lists@[3]@ && views[4] == lists@[4]@);
    if lists[1].len() != n || lists[2].len() != n || lists[3].len() != n || lists[4].len() != n {
        return Err(StoreError::Malformed);
    }
    let mut locs: Vec<(u32, u16)> = Vec::new();
    let mut directed: Vec<bool> = Vec::new();
    let mut i: usize = 0;
    while i < n
        invariant
            i <= n,
            lists@.len() == 5,
            views == super::disk_index::list_views(lists@),
            n == lists@[0]@.len(),
            n == lists@[1]@.len(),
            n == lists@[4]@.len(),
            super::disk_index::u32_list(pager@, root) is Ok,
            super::disk_index::u32_lists(
                pager@,
                super::disk_index::u32_list(pager@, root)->Ok_0,
            ) == Ok::<_, StoreError>(views),
            locs@.len() == i,
            directed@.len() == i,
            forall|j: int|
                0 <= j < i ==> (#[trigger] locs@[j]).0 == lists@[0]@[j] && locs@[j].1
                    == lists@[1]@[j],
            forall|j: int|
                0 <= j < i ==> lists@[4]@[j] == (if #[trigger] directed@[j] {
                    1u32
                } else {
                    0u32
                }),
        decreases n - i,
    {
        let cell = lists[1][i];
        let d = lists[4][i];
        if cell > u16::MAX as u32 || d > 1 {
            assert(views[1][i as int] == cell);
            assert(views[4][i as int] == d);
            assert(!topo_form(views));
            return Err(StoreError::Malformed);
        }
        locs.push((lists[0][i], cell as u16));
        directed.push(d == 1);
        i = i + 1;
    }
    let src = super::io::copy_ids(&lists[2]);
    let tgt = super::io::copy_ids(&lists[3]);
    let t = EdgeTopo { locs, src, tgt, directed };
    proof {
        let want = t.lists();
        assert(want[0] =~= views[0]);
        assert(want[1] =~= views[1]);
        assert(want[2] =~= views[2]);
        assert(want[3] =~= views[3]);
        assert(want[4] =~= views[4]);
        assert(want =~= views);
    }
    Ok(t)
}

/// Whether two lists are the same.
fn same_ids(a: &Vec<u32>, b: &Vec<u32>) -> (r: bool)
    ensures
        r == (a@ == b@),
{
    if a.len() != b.len() {
        return false;
    }
    let mut i: usize = 0;
    while i < a.len()
        invariant
            i <= a.len(),
            a.len() == b.len(),
            forall|j: int| 0 <= j < i ==> #[trigger] a@[j] == b@[j],
        decreases a.len() - i,
    {
        if a[i] != b[i] {
            assert(a@[i as int] != b@[i as int]);
            return false;
        }
        i = i + 1;
    }
    assert(a@ =~= b@);
    true
}

/// Whether two lists are the same.
fn same_flags(a: &Vec<bool>, b: &Vec<bool>) -> (r: bool)
    ensures
        r == (a@ == b@),
{
    if a.len() != b.len() {
        return false;
    }
    let mut i: usize = 0;
    while i < a.len()
        invariant
            i <= a.len(),
            a.len() == b.len(),
            forall|j: int| 0 <= j < i ==> #[trigger] a@[j] == b@[j],
        decreases a.len() - i,
    {
        if a[i] != b[i] {
            assert(a@[i as int] != b@[i as int]);
            return false;
        }
        i = i + 1;
    }
    assert(a@ =~= b@);
    true
}

proof fn nodes_of_all(cells: Seq<Seq<u8>>, strings: Seq<Seq<char>>, s: Seq<NodeView>)
    requires
        cells.len() == s.len(),
        forall|i: int|
            0 <= i < cells.len() ==> super::io::node_of(#[trigger] cells[i], strings) == Some(s[i]),
    ensures
        super::io::nodes_of(cells, strings) == Some(s),
    decreases cells.len(),
{
    if cells.len() > 0 {
        let n = cells.len() - 1;
        assert forall|i: int| 0 <= i < n implies super::io::node_of(
            #[trigger] cells.drop_last()[i],
            strings,
        ) == Some(s.drop_last()[i]) by {
            assert(cells.drop_last()[i] == cells[i]);
        }
        nodes_of_all(cells.drop_last(), strings, s.drop_last());
        assert(super::io::node_of(cells[n], strings) == Some(s[n]));
        assert(s.drop_last().push(s[n]) =~= s);
    } else {
        assert(s =~= Seq::empty());
    }
}

proof fn edges_of_all(cells: Seq<Seq<u8>>, strings: Seq<Seq<char>>, s: Seq<EdgeView>)
    requires
        cells.len() == s.len(),
        forall|i: int|
            0 <= i < cells.len() ==> super::io::edge_of(#[trigger] cells[i], strings) == Some(s[i]),
    ensures
        super::io::edges_of(cells, strings) == Some(s),
    decreases cells.len(),
{
    if cells.len() > 0 {
        let n = cells.len() - 1;
        assert forall|i: int| 0 <= i < n implies super::io::edge_of(
            #[trigger] cells.drop_last()[i],
            strings,
        ) == Some(s.drop_last()[i]) by {
            assert(cells.drop_last()[i] == cells[i]);
        }
        edges_of_all(cells.drop_last(), strings, s.drop_last());
        assert(super::io::edge_of(cells[n], strings) == Some(s[n]));
        assert(s.drop_last().push(s[n]) =~= s);
    } else {
        assert(s =~= Seq::empty());
    }
}

/// A file without an index of places that can be opened: its records can be
/// read, edges join its nodes, and ids fit.
pub open spec fn readable(pages: Seq<Seq<u8>>, header: Header) -> bool {
    match super::io::file_graph(pages, header) {
        Ok((nodes, edges)) => nodes.len() <= u32::MAX && edges.len() <= u32::MAX
            && super::io::ends_known(edges, nodes.len() as int),
        Err(_) => false,
    }
}

/// What is listed of an edge is what its record says.
pub open spec fn listed_edge(
    pages: Seq<Seq<u8>>,
    lists: Seq<Seq<u32>>,
    strings: Seq<Seq<char>>,
    nodes: int,
    i: int,
) -> bool {
    super::io::edge_at(pages, lists[0][i], lists[1][i], strings) matches Some(e) && e.src
        == lists[2][i] && e.tgt == lists[3][i] && e.directed == (lists[4][i] == 1) && e.src < nodes
        && e.tgt < nodes
}

/// Listed places are those of records.
pub open spec fn places_of_records(
    pages: Seq<Seq<u8>>,
    locs: Seq<(u32, u32)>,
    lists: Seq<Seq<u32>>,
    strings: Seq<Seq<char>>,
) -> bool {
    &&& locs.len() <= u32::MAX
    &&& topo_form(lists)
    &&& lists[0].len() <= u32::MAX
    &&& forall|i: int|
        0 <= i < locs.len() ==> (#[trigger] locs[i]).1 <= u16::MAX && super::io::node_at(
            pages,
            locs[i].0,
            locs[i].1,
            strings,
        ) is Some
    &&& forall|i: int|
        0 <= i < lists[0].len() ==> #[trigger] listed_edge(
            pages,
            lists,
            strings,
            locs.len() as int,
            i,
        )
}

/// What a file lists of the edges.
pub open spec fn topo_of(pages: Seq<Seq<u8>>, header: Header) -> Result<Seq<Seq<u32>>, StoreError> {
    match super::disk_index::u32_list(pages, header.edge_topo_root) {
        Err(e) => Err(e),
        Ok(roots) => super::disk_index::u32_lists(pages, roots),
    }
}

/// The places that a file lists can be read, and are those of records.
pub open spec fn places_readable(
    pages: Seq<Seq<u8>>,
    header: Header,
    strings: Seq<Seq<char>>,
) -> bool {
    let locs = super::disk_index::pair_list(pages, header.node_locs_root);
    let lists = topo_of(pages, header);
    locs is Ok && lists is Ok && places_of_records(pages, locs->Ok_0, lists->Ok_0, strings)
}

/// Where the listed places are those of records, the graph is made.
proof fn records_made(
    pages: Seq<Seq<u8>>,
    strings: Seq<Seq<char>>,
    nl: Seq<(u32, u16)>,
    el: Seq<(u32, u16)>,
    src: Seq<u32>,
    tgt: Seq<u32>,
    directed: Seq<bool>,
    made: Option<LazyBase>,
)
    requires
        places_of_records(
            pages,
            loc_pairs(nl),
            super::io::topo_lists(el, src, tgt, directed),
            strings,
        ),
        src.len() == el.len(),
        tgt.len() == el.len(),
        directed.len() == el.len(),
        match made {
            Some(b) => b.wf() && b.pager@ == pages && b.strings@ == strings && b.node_locs@ == nl
                && b.edge_locs@ == el,
            None => !(nl.len() <= u32::MAX && el.len() <= u32::MAX && nodes_located(
                pages,
                nl,
                strings,
            ) && edges_located(pages, el, strings, nl.len() as int)),
        },
    ensures
        made is Some,
        made->Some_0.edge_src@ == src,
        made->Some_0.edge_tgt@ == tgt,
        made->Some_0.edge_directed@ == directed,
{
    let locs = loc_pairs(nl);
    let lists = super::io::topo_lists(el, src, tgt, directed);
    assert(lists[0].len() == el.len());
    assert forall|i: int| 0 <= i < nl.len() implies (located_node(pages, #[trigger] nl[i], strings)) is Some by {
        assert(locs[i] == (nl[i].0, nl[i].1 as u32));
    }
    assert forall|i: int| 0 <= i < el.len() implies {
        let e = located_edge(pages, #[trigger] el[i], strings);
        e is Some && e->Some_0.src < nl.len() && e->Some_0.tgt < nl.len() && e->Some_0.src == src[i]
            && e->Some_0.tgt == tgt[i] && e->Some_0.directed == directed[i]
    } by {
        assert(listed_edge(pages, lists, strings, locs.len() as int, i));
        assert(lists[0][i] == el[i].0);
        assert(lists[1][i] == el[i].1);
    }
    assert(made is Some);
    let b = made->Some_0;
    assert forall|i: int| 0 <= i < el.len() implies b.edge_src@[i] == src[i] && b.edge_tgt@[i]
        == tgt[i] && b.edge_directed@[i] == directed[i] by {
        assert(b.edge(i).src == b.edge_src@[i]);
        assert(located_edge(pages, el[i], strings) is Some);
    }
    assert(b.edge_src@ =~= src);
    assert(b.edge_tgt@ =~= tgt);
    assert(b.edge_directed@ =~= directed);
}

impl LazyBase {
    /// The graph of a file whose records are looked for on every page.
    fn load_from_page_scan(pager: Pager, strings: StringTable) -> (r: Result<
        LazyBase,
        StoreError,
    >)
        requires
            pager.wf(),
            super::io::file_strings(pager@, pager.header) == Ok::<_, StoreError>(strings@),
        ensures
            match r {
                Ok(b) => {
                    &&& b.wf()
                    &&& b.pager == pager
                    &&& b.strings == strings
                    &&& readable(pager@, pager.header)
                    &&& super::io::file_graph(pager@, pager.header) == Ok::<_, StoreError>(
                        (b.node_seq(), b.edge_seq()),
                    )
                },
                Err(e) => e == StoreError::Malformed && !readable(pager@, pager.header),
            },
    {
        match collect_cells(&pager, PageType::NodeData) {
            Some(_) => {},
            None => {
                return Err(StoreError::Malformed);
            },
        }
        match collect_cells(&pager, PageType::EdgeData) {
            Some(_) => {},
            None => {
                return Err(StoreError::Malformed);
            },
        }
        let ghost nc = super::cells::all_cells(pager@, PageType::NodeData)->Some_0;
        let ghost ec = super::cells::all_cells(pager@, PageType::EdgeData)->Some_0;
        let node_locs = collect_places(&pager, PageType::NodeData);
        let edge_locs = collect_places(&pager, PageType::EdgeData);
        let ghost nl = node_locs@;
        let ghost el = edge_locs@;
        let ghost pages = pager@;
        let ghost header = pager.header;
        let ghost st = strings@;
        proof {
            super::cells::places_of_cells(pages, PageType::NodeData, pages.len());
            super::cells::places_of_cells(pages, PageType::EdgeData, pages.len());
        }
        match LazyBase::at_places(pager, strings, node_locs, edge_locs) {
            Some(b) => {
                proof {
                    assert forall|i: int| 0 <= i < nc.len() implies super::io::node_of(
                        #[trigger] nc[i],
                        st,
                    ) == Some(b.node_seq()[i]) by {
                        assert(located_node(pages, nl[i], st) is Some);
                    }
                    nodes_of_all(nc, st, b.node_seq());
                    assert forall|i: int| 0 <= i < ec.len() implies super::io::edge_of(
                        #[trigger] ec[i],
                        st,
                    ) == Some(b.edge_seq()[i]) by {
                        assert(located_edge(pages, el[i], st) is Some);
                    }
                    edges_of_all(ec, st, b.edge_seq());
                    assert forall|i: int| 0 <= i < b.edge_seq().len() implies (
                    #[trigger] b.edge_seq()[i]).src < b.node_seq().len() && b.edge_seq()[i].tgt
                        < b.node_seq().len() by {
                        assert(located_edge(pages, el[i], st) is Some);
                    }
                }
                Ok(b)
            },
            None => {
                proof {
                    if readable(pages, header) {
                        let (nodes, edges) = super::io::file_graph(pages, header)->Ok_0;
                        super::io::nodes_of_len(nc, st);
                        super::io::edges_of_len(ec, st);
                        assert forall|i: int| 0 <= i < nl.len() implies (located_node(
                            pages,
                            #[trigger] nl[i],
                            st,
                        )) is Some by {
                            super::io::nodes_of_cell(nc, st, i);
                        }
                        assert forall|i: int| 0 <= i < el.len() implies {
                            let e = located_edge(pages, #[trigger] el[i], st);
                            e is Some && e->Some_0.src < nl.len() && e->Some_0.tgt < nl.len()
                        } by {
                            super::io::edges_of_cell(ec, st, i);
                            assert(edges[i].src < nodes.len());
                        }
                    }
                }
                Err(StoreError::Malformed)
            },
        }
    }

    /// The graph of a file that says where its records are.
    fn load_from_indexes(pager: Pager, strings: StringTable) -> (r: Result<LazyBase, StoreError>)
        requires
            pager.wf(),
            super::io::file_strings(pager@, pager.header) == Ok::<_, StoreError>(strings@),
        ensures
            match r {
                Ok(b) => {
                    &&& b.wf()
                    &&& b.pager == pager
                    &&& b.strings == strings
                    &&& b.places_listed()
                },
                Err(_) => {
                    &&& !places_readable(pager@, pager.header, strings@)
                    &&& forall|st: Seq<Seq<char>>, nodes: Seq<NodeView>, edges: Seq<EdgeView>|
                        !#[trigger] super::io::saved(pager@, pager.header, st, nodes, edges)
                },
            },
            forall|st: Seq<Seq<char>>, nodes: Seq<NodeView>, edges: Seq<EdgeView>| #[trigger]
                super::io::saved(pager@, pager.header, st, nodes, edges) ==> r is Ok
                    && r->Ok_0.node_seq() == nodes && r->Ok_0.edge_seq() == edges,
    {
        let ghost pages = pager@;
        let ghost header = pager.header;
        let ghost sts = strings@;
        let node_locs = match read_node_locs(&pager, pager.header.node_locs_root) {
            Ok(v) => v,
            Err(e) => {
                return Err(e);
            },
        };
        let ghost nl = node_locs@;
        let topo = match read_edge_topo(&pager, pager.header.edge_topo_root) {
            Ok(t) => t,
            Err(e) => {
                proof {
                    assert forall|st: Seq<Seq<char>>, nodes: Seq<NodeView>, edges: Seq<EdgeView>|
                        !#[trigger] super::io::saved(pages, header, st, nodes, edges) by {
                        if super::io::saved(pages, header, st, nodes, edges) {
                            topo_formed(pages, header.edge_topo_root, st, edges);
                        }
                    }
                }
                return Err(e);
            },
        };
        let ghost el = topo.locs@;
        let ghost tl = topo.lists();
        let EdgeTopo { locs, src, tgt, directed } = topo;
        let made = LazyBase::at_places(pager, strings, node_locs, locs);
        proof {
            if places_of_records(pages, loc_pairs(nl), tl, sts) {
                records_made(pages, sts, nl, el, src@, tgt@, directed@, made);
            }
            assert forall|st: Seq<Seq<char>>, nodes: Seq<NodeView>, edges: Seq<EdgeView>| #[trigger]
                super::io::saved(pages, header, st, nodes, edges) implies made is Some
                && made->Some_0.node_seq() == nodes && made->Some_0.edge_seq() == edges
                && made->Some_0.edge_src@ == src@ && made->Some_0.edge_tgt@ == tgt@
                && made->Some_0.edge_directed@ == directed@ by {
                saved_made(
                    pages,
                    header,
                    sts,
                    st,
                    nodes,
                    edges,
                    nl,
                    el,
                    src@,
                    tgt@,
                    directed@,
                    made,
                );
            }
        }
        match made {
            Some(b) => {
                if same_ids(&b.edge_src, &src) && same_ids(&b.edge_tgt, &tgt) && same_flags(
                    &b.edge_directed,
                    &directed,
                ) {
                    Ok(b)
                } else {
                    Err(StoreError::Malformed)
                }
            },
            None => Err(StoreError::Malformed),
        }
    }

    /// The places of the records are those that the file lists.
    pub open spec fn places_listed(&self) -> bool {
        let pages = self.pager@;
        let header = self.pager.header;
        let roots = super::disk_index::u32_list(pages, header.edge_topo_root);
        &&& super::disk_index::pair_list(pages, header.node_locs_root) == Ok::<_, StoreError>(
            loc_pairs(self.node_locs@),
        )
        &&& roots is Ok
        &&& super::disk_index::u32_lists(pages, roots->Ok_0) == Ok::<_, StoreError>(
            super::io::topo_lists(
                self.edge_locs@,
                self.edge_src@,
                self.edge_tgt@,
                self.edge_directed@,
            ),
        )
    }

    /// The graph of a file.
    pub fn open(pager: Pager) -> (r: Result<LazyBase, StoreError>)
        requires
            pager.wf(),
        ensures
            match r {
                Ok(b) => {
                    &&& b.wf()
                    &&& b.pager == pager
                    &&& super::io::file_strings(pager@, pager.header) == Ok::<_, StoreError>(
                        b.strings@,
                    )
                    &&& super::io::table_pages(pager@, pager.header) == Ok::<_, StoreError>(
                        b.strings.pages@,
                    )
                    &&& if indexed_file(pager.header) {
                        b.places_listed()
                    } else {
                        super::io::file_graph(pager@, pager.header) == Ok::<_, StoreError>(
                            (b.node_seq(), b.edge_seq()),
                        )
                    }
                },
                Err(_) => {
                    &&& !indexed_file(pager.header) ==> !readable(pager@, pager.header)
                    &&& indexed_file(pager.header) ==> super::io::file_strings(
                        pager@,
                        pager.header,
                    ) is Err || !places_readable(
                        pager@,
                        pager.header,
                        super::io::file_strings(pager@, pager.header)->Ok_0,
                    )
                    &&& forall|st: Seq<Seq<char>>, nodes: Seq<NodeView>, edges: Seq<EdgeView>|
                        !#[trigger] super::io::saved(pager@, pager.header, st, nodes, edges)
                },
            },
            forall|st: Seq<Seq<char>>, nodes: Seq<NodeView>, edges: Seq<EdgeView>| #[trigger]
                super::io::saved(pager@, pager.header, st, nodes, edges) ==> r is Ok
                    && r->Ok_0.strings@ == st && r->Ok_0.node_seq() == nodes && r->Ok_0.edge_seq()
                    == edges,
    {
        let strings = match load_strings(&pager) {
            Ok(t) => t,
            Err(e) => {
                return Err(e);
            },
        };
        let h = pager.header;
        if h.string_table_root != 0 && h.node_locs_root != 0 && h.edge_topo_root != 0 {
            LazyBase::load_from_indexes(pager, strings)
        } else {
            LazyBase::load_from_page_scan(pager, strings)
        }
    }
}

proof fn topo_formed(
    pages: Seq<Seq<u8>>,
    root: u32,
    strings: Seq<Seq<char>>,
    edges: Seq<EdgeView>,
)
    requires
        super::io::edge_topo_ok(pages, root, strings, edges),
    ensures
        super::disk_index::u32_list(pages, root) is Ok,
        super::disk_index::u32_lists(pages, super::disk_index::u32_list(pages, root)->Ok_0) is Ok,
        ({
            let lists = super::disk_index::u32_lists(
                pages,
                super::disk_index::u32_list(pages, root)->Ok_0,
            )->Ok_0;
            topo_form(lists) && super::io::topo_ok(pages, lists, strings, edges)
        }),
{
    let lists = choose|lists: Seq<Seq<u32>>| #[trigger]
        super::disk_index::lists_at(pages, root, lists) && super::io::topo_ok(
            pages,
            lists,
            strings,
            edges,
        );
    super::disk_index::lists_at_read(pages, root, lists);
    assert(lists[0].len() == edges.len());
    assert forall|i: int| 0 <= i < lists[0].len() implies #[trigger] lists[1][i] <= u16::MAX by {
        assert(super::io::edge_at(pages, lists[0][i], lists[1][i], strings) == Some(edges[i]));
    }
    assert forall|i: int| 0 <= i < lists[0].len() implies #[trigger] lists[4][i] <= 1 by {
        assert(super::io::edge_at(pages, lists[0][i], lists[1][i], strings) == Some(edges[i]));
    }
}

proof fn saved_places(
    pages: Seq<Seq<u8>>,
    header: Header,
    strings: Seq<Seq<char>>,
    nodes: Seq<NodeView>,
    edges: Seq<EdgeView>,
    nl: Seq<(u32, u16)>,
    el: Seq<(u32, u16)>,
    src: Seq<u32>,
    tgt: Seq<u32>,
    directed: Seq<bool>,
)
    requires
        super::io::saved(pages, header, strings, nodes, edges),
        super::disk_index::pair_list(pages, header.node_locs_root) == Ok::<_, StoreError>(
            loc_pairs(nl),
        ),
        super::disk_index::u32_list(pages, header.edge_topo_root) is Ok,
        super::disk_index::u32_lists(
            pages,
            super::disk_index::u32_list(pages, header.edge_topo_root)->Ok_0,
        ) == Ok::<_, StoreError>(super::io::topo_lists(el, src, tgt, directed)),
        src.len() == el.len(),
        tgt.len() == el.len(),
        directed.len() == el.len(),
    ensures
        nl.len() == nodes.len(),
        el.len() == edges.len(),
        nodes_located(pages, nl, strings),
        edges_located(pages, el, strings, nl.len() as int),
        forall|i: int|
            0 <= i < nl.len() ==> located_node(pages, #[trigger] nl[i], strings) == Some(nodes[i]),
        forall|i: int|
            0 <= i < el.len() ==> located_edge(pages, #[trigger] el[i], strings) == Some(edges[i])
                && edges[i].src == src[i] && edges[i].tgt == tgt[i] && edges[i].directed
                == directed[i],
{
    topo_formed(pages, header.edge_topo_root, strings, edges);
    let tl = super::io::topo_lists(el, src, tgt, directed);
    assert(tl[0].len() == edges.len());
    let pairs = loc_pairs(nl);
    assert forall|i: int| 0 <= i < nl.len() implies located_node(
        pages,
        #[trigger] nl[i],
        strings,
    ) == Some(nodes[i]) by {
        assert(pairs[i] == (nl[i].0, nl[i].1 as u32));
    }
    assert forall|i: int| 0 <= i < el.len() implies located_edge(
        pages,
        #[trigger] el[i],
        strings,
    ) == Some(edges[i]) && edges[i].src == src[i] && edges[i].tgt == tgt[i] && edges[i].directed
        == directed[i] by {
        assert(super::io::edge_at(pages, tl[0][i], tl[1][i], strings) == Some(edges[i]));
        assert(tl[4][i] == (if edges[i].directed {
            1u32
        } else {
            0u32
        }));
    }
    assert forall|i: int| 0 <= i < el.len() implies {
        let e = located_edge(pages, #[trigger] el[i], strings);
        e is Some && e->Some_0.src < nl.len() && e->Some_0.tgt < nl.len()
    } by {
        assert(edges[i].src < nodes.len());
    }
}

proof fn saved_made(
    pages: Seq<Seq<u8>>,
    header: Header,
    table: Seq<Seq<char>>,
    strings: Seq<Seq<char>>,
    nodes: Seq<NodeView>,
    edges: Seq<EdgeView>,
    nl: Seq<(u32, u16)>,
    el: Seq<(u32, u16)>,
    src: Seq<u32>,
    tgt: Seq<u32>,
    directed: Seq<bool>,
    made: Option<LazyBase>,
)
    requires
        super::io::saved(pages, header, strings, nodes, edges),
        super::io::file_strings(pages, header) == Ok::<_, StoreError>(table),
        super::disk_index::pair_list(pages, header.node_locs_root) == Ok::<_, StoreError>(
            loc_pairs(nl),
        ),
        super::disk_index::u32_list(pages, header.edge_topo_root) is Ok,
        super::disk_index::u32_lists(
            pages,
            super::disk_index::u32_list(pages, header.edge_topo_root)->Ok_0,
        ) == Ok::<_, StoreError>(super::io::topo_lists(el, src, tgt, directed)),
        src.len() == el.len(),
        tgt.len() == el.len(),
        directed.len() == el.len(),
        match made {
            Some(b) => b.wf() && b.pager@ == pages && b.strings@ == table && b.node_locs@ == nl
                && b.edge_locs@ == el,
            None => !(nl.len() <= u32::MAX && el.len() <= u32::MAX && nodes_located(
                pages,
                nl,
                table,
            ) && edges_located(pages, el, table, nl.len() as int)),
        },
    ensures
        made is Some,
        made->Some_0.node_seq() == nodes,
        made->Some_0.edge_seq() == edges,
        made->Some_0.edge_src@ == src,
        made->Some_0.edge_tgt@ == tgt,
        made->Some_0.edge_directed@ == directed,
{
    assert(table == strings);
    assert(nodes.len() == header.node_count && edges.len() == header.edge_count);
    saved_places(pages, header, strings, nodes, edges, nl, el, src, tgt, directed);
    let b = made->Some_0;
    assert forall|i: int| 0 <= i < nodes.len() implies #[trigger] b.node_seq()[i] == nodes[i] by {
        assert(located_node(pages, nl[i], strings) == Some(nodes[i]));
    }
    assert(b.node_seq() =~= nodes);
    assert forall|i: int| 0 <= i < edges.len() implies #[trigger] b.edge_seq()[i] == edges[i] by {
        assert(located_edge(pages, el[i], strings) == Some(edges[i]));
    }
    assert(b.edge_seq() =~= edges);
    assert forall|i: int| 0 <= i < edges.len() implies #[trigger] b.edge_src@[i] == src[i]
        && b.edge_tgt@[i] == tgt[i] && b.edge_directed@[i] == directed[i] by {
        assert(located_edge(pages, el[i], strings) == Some(edges[i]));
        assert(b.edge(i) == edges[i]);
    }
    assert(b.edge_src@ =~= src);
    assert forall|i: int| 0 <= i < edges.len() implies #[trigger] b.edge_tgt@[i] == tgt[i] by {
        assert(b.edge_src@[i] == src[i]);
    }
    assert(b.edge_tgt@ =~= tgt);
    assert forall|i: int| 0 <= i < edges.len() implies #[trigger] b.edge_directed@[i]
        == directed[i] by {
        assert(b.edge_src@[i] == src[i]);
    }
    assert(b.edge_directed@ =~= directed);
}

impl LazyBase {
    /// Appends to the file where its records are, so that it need not be looked
    /// through when it is opened again. Only running out of pages stops it.
    pub fn upgrade_file(&mut self) -> (r: Result<(), StoreError>)
        requires
            old(self).wf(),
            super::string_table::read_table(old(self).pager@, old(self).strings.pages@) == Ok::<
                _,
                StoreError,
            >(old(self).strings@),
        ensures
            final(self).wf(),
            final(self).strings == old(self).strings,
            final(self).node_seq() == old(self).node_seq(),
            final(self).edge_seq() == old(self).edge_seq(),
            final(self).edge_directed == old(self).edge_directed,
            final(self).node_locs == old(self).node_locs,
            final(self).edge_locs == old(self).edge_locs,
            match r {
                Ok(_) => {
                    let h = final(self).pager.header;
                    &&& indexed_file(h)
                    &&& h == (Header {
                        string_table_root: h.string_table_root,
                        node_locs_root: h.node_locs_root,
                        edge_topo_root: h.edge_topo_root,
                        ..old(self).pager.header
                    })
                    &&& final(self).places_listed()
                    &&& super::io::file_strings(final(self).pager@, h) == Ok::<_, StoreError>(
                        final(self).strings@,
                    )
                },
                Err(e) => e == StoreError::Full && old(self).pager@.len() + super::io::place_pages(
                    old(self).strings.pages@.len(),
                    old(self).node_seq().len(),
                    old(self).edge_seq().len(),
                ) > u32::MAX,
            },
    {
        let ghost p0 = self.pager@;
        let table = super::io::copy_ids(&self.strings.pages);
        let st_root = super::disk_index::write_u32_list(&mut self.pager, &table);
        let ghost p1 = self.pager@;
        proof {
            self.appended_keeps(old(self), p0);
        }
        let st_root = match st_root {
            Ok(x) => x,
            Err(e) => {
                return Err(e);
            },
        };
        let node_root = super::io::write_node_locs(&mut self.pager, &self.node_locs);
        let ghost p2 = self.pager@;
        proof {
            super::disk_index::appended_twice(p0, p1, p2);
            self.appended_keeps(old(self), p0);
        }
        let node_root = match node_root {
            Ok(x) => x,
            Err(e) => {
                return Err(e);
            },
        };
        let topo_root = super::io::write_edge_topo(
            &mut self.pager,
            &self.edge_locs,
            &self.edge_src,
            &self.edge_tgt,
            &self.edge_directed,
        );
        let ghost p3 = self.pager@;
        proof {
            super::disk_index::appended_twice(p1, p2, p3);
            super::disk_index::appended_twice(p0, p1, p3);
            self.appended_keeps(old(self), p0);
        }
        let topo_root = match topo_root {
            Ok(x) => x,
            Err(e) => {
                return Err(e);
            },
        };
        self.pager.header.string_table_root = st_root;
        self.pager.header.node_locs_root = node_root;
        self.pager.header.edge_topo_root = topo_root;
        proof {
            self.appended_keeps(old(self), p0);
            super::disk_index::lists_frame(p1, p3, st_root);
            super::disk_index::lists_frame(p2, p3, node_root);
            assert(loc_pairs(self.node_locs@) =~= Seq::new(
                self.node_locs@.len(),
                |i: int| (self.node_locs@[i].0, self.node_locs@[i].1 as u32),
            ));
            super::disk_index::lists_at_read(
                p3,
                topo_root,
                super::io::topo_lists(
                    self.edge_locs@,
                    self.edge_src@,
                    self.edge_tgt@,
                    self.edge_directed@,
                ),
            );
            super::string_table::table_prefix(p0, p3, self.strings.pages@);
        }
        Ok(())
    }

    /// Records stay where they are when index pages are added.
    proof fn appended_keeps(&self, was: &LazyBase, pages: Seq<Seq<u8>>)
        requires
            was.wf(),
            pages == was.pager@,
            super::disk_index::appended(pages, self.pager@),
            self.pager.wf(),
            self.strings == was.strings,
            self.node_locs == was.node_locs,
            self.edge_locs == was.edge_locs,
            self.edge_src == was.edge_src,
            self.edge_tgt == was.edge_tgt,
            self.edge_directed == was.edge_directed,
        ensures
            self.wf(),
            self.node_seq() == was.node_seq(),
            self.edge_seq() == was.edge_seq(),
    {
        let now = self.pager@;
        assert forall|i: int| 0 <= i < self.node_locs@.len() implies located_node(
            now,
            #[trigger] self.node_locs@[i],
            self.strings@,
        ) == located_node(pages, was.node_locs@[i], was.strings@) && located_node(
            pages,
            was.node_locs@[i],
            was.strings@,
        ) is Some by {
            assert(located_node(pages, was.node_locs@[i], was.strings@) is Some);
            super::io::cells_stay(
                pages,
                now,
                self.node_locs@[i].0 as int,
                self.node_locs@[i].1 as int,
            );
        }
        assert forall|i: int| 0 <= i < self.edge_locs@.len() implies located_edge(
            now,
            #[trigger] self.edge_locs@[i],
            self.strings@,
        ) == located_edge(pages, was.edge_locs@[i], was.strings@) && located_edge(
            pages,
            was.edge_locs@[i],
            was.strings@,
        ) is Some by {
            assert(located_edge(pages, was.edge_locs@[i], was.strings@) is Some);
            super::io::cells_stay(
                pages,
                now,
                self.edge_locs@[i].0 as int,
                self.edge_locs@[i].1 as int,
            );
        }
        assert forall|i: int| 0 <= i < self.edge_locs@.len() implies {
            let e = #[trigger] self.edge(i);
            e == was.edge(i)
        } by {
            assert(located_edge(now, self.edge_locs@[i], self.strings@) is Some);
        }
        assert(self.node_seq() =~= was.node_seq()) by {
            assert forall|i: int| 0 <= i < self.node_locs@.len() implies #[trigger] self.node_seq()[i]
                == was.node_seq()[i] by {
                assert(located_node(now, self.node_locs@[i], self.strings@) is Some);
            }
        }
        assert(self.edge_seq() =~= was.edge_seq());
        assert(edges_located(now, self.edge_locs@, self.strings@, self.node_locs@.len() as int)) by {
            assert forall|i: int| 0 <= i < self.edge_locs@.len() implies {
                let e = located_edge(now, #[trigger] self.edge_locs@[i], self.strings@);
                e is Some && e->Some_0.src < self.node_locs@.len() && e->Some_0.tgt
                    < self.node_locs@.len()
            } by {
                assert(located_edge(pages, was.edge_locs@[i], was.strings@) is Some);
            }
        }
        assert forall|i: int| 0 <= i < self.edge_locs@.len() implies {
            let e = #[trigger] self.edge(i);
            e.src == self.edge_src@[i] && e.tgt == self.edge_tgt@[i] && e.directed
                == self.edge_directed@[i]
        } by {
            assert(self.edge(i) == was.edge(i));
        }
    }
}

} // verus!
