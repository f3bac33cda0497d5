//! Records written to a new file one after the other.

use vstd::prelude::*;

use super::cells::store_cell;
use super::pager::{PageType, Pager, StoreError};
use super::record::{encode_edge, encode_node, EdgeRecordView, PropValue, RecordView};
use super::string_table::StringTable;
use super::values::{encode_props, intern_strings, intern_text};
use crate::model::graph::MemoryGraphStore;
use crate::model::graph_access::{EdgeView, NodeView};
use crate::model::value::Props;
use crate::typing::label_type::{LabelType, LabelTypeView};

verus! {

/// A file to which records are written.
pub struct Writer {
    pub pager: Pager,
    pub strings: StringTable,
    /// The last page of nodes.
    pub last_node: Option<u32>,
    /// The last page of edges.
    pub last_edge: Option<u32>,
    /// Where each node is.
    pub node_locs: Vec<(u32, u16)>,
    /// Where each edge is.
    pub edge_locs: Vec<(u32, u16)>,
    /// The numbers of each node's labels.
    pub node_sids: Vec<Vec<u32>>,
    /// The numbers of each edge's labels.
    pub edge_sids: Vec<Vec<u32>>,
}

/// The records of a type are on their pages, and their places are known.
pub open spec fn located(
    pages: Seq<Seq<u8>>,
    t: PageType,
    last: Option<u32>,
    locs: Seq<(u32, u16)>,
) -> bool {
    &&& super::cells::tail_ok(pages, t, last)
    &&& super::cells::all_cells(pages, t) is Some
    &&& locs.len() == super::cells::all_cells(pages, t)->Some_0.len()
    &&& forall|i: int|
        0 <= i < locs.len() ==> #[trigger] super::cells::cell_at(
            pages,
            locs[i].0 as int,
            locs[i].1 as int,
        ) == Some(super::cells::all_cells(pages, t)->Some_0[i]) && super::pager::has_type(
            pages[locs[i].0 as int],
            t,
        )
}

/// The numbers of labels, with what labels they are.
pub open spec fn labels_known(
    sids: Seq<Vec<u32>>,
    strings: Seq<Seq<char>>,
    labels: Seq<LabelTypeView>,
) -> bool {
    sids.len() == labels.len() && forall|i: int|
        0 <= i < sids.len() ==> super::values::resolve_ids((#[trigger] sids[i])@, strings) == Some(
            labels[i].required(),
        )
}

/// The labels of nodes.
pub open spec fn node_label_views(s: Seq<NodeView>) -> Seq<LabelTypeView> {
    Seq::new(s.len(), |i: int| s[i].labels)
}

/// The labels of edges.
pub open spec fn edge_label_views(s: Seq<EdgeView>) -> Seq<LabelTypeView> {
    Seq::new(s.len(), |i: int| s[i].labels)
}

/// Cells of one type are where they were after changes to other types.
pub proof fn located_frame(
    a: Seq<Seq<u8>>,
    b: Seq<Seq<u8>>,
    kinds: Set<u8>,
    t: PageType,
    last: Option<u32>,
    locs: Seq<(u32, u16)>,
)
    requires
        located(a, t, last, locs),
        super::pager::grown(a, b, kinds),
        !kinds.contains(t.byte()),
        a.len() >= 1,
    ensures
        located(b, t, last, locs),
        super::cells::all_cells(b, t) == super::cells::all_cells(a, t),
{
    super::cells::cells_frame(a, b, kinds, t);
    assert(super::cells::tail_ok(b, t, last));
    assert forall|i: int| 0 <= i < locs.len() implies #[trigger] super::cells::cell_at(
        b,
        locs[i].0 as int,
        locs[i].1 as int,
    ) == Some(super::cells::all_cells(b, t)->Some_0[i]) && super::pager::has_type(
        b[locs[i].0 as int],
        t,
    ) by {
        assert(super::cells::cell_at(a, locs[i].0 as int, locs[i].1 as int) == Some(
            super::cells::all_cells(a, t)->Some_0[i],
        ));
        assert(b[locs[i].0 as int] == a[locs[i].0 as int]);
    }
}

/// One more record of a type.
proof fn located_push(
    a: Seq<Seq<u8>>,
    b: Seq<Seq<u8>>,
    t: PageType,
    last: Option<u32>,
    after: Option<u32>,
    locs: Seq<(u32, u16)>,
    loc: (u32, u16),
    cell: Seq<u8>,
)
    requires
        located(a, t, last, locs),
        super::pager::grown(a, b, set![t.byte()]),
        super::cells::tail_ok(b, t, after),
        super::cells::all_cells(b, t) == Some(super::cells::all_cells(a, t)->Some_0.push(cell)),
        super::cells::cell_at(b, loc.0 as int, loc.1 as int) == Some(cell),
        super::pager::has_type(b[loc.0 as int], t),
        forall|p: int, c: int|
            super::cells::cell_at(a, p, c) is Some ==> #[trigger] super::cells::cell_at(b, p, c)
                == super::cells::cell_at(a, p, c),
    ensures
        located(b, t, after, locs.push(loc)),
{
    let all = locs.push(loc);
    let cells = super::cells::all_cells(b, t)->Some_0;
    assert forall|i: int| 0 <= i < all.len() implies #[trigger] super::cells::cell_at(
        b,
        all[i].0 as int,
        all[i].1 as int,
    ) == Some(cells[i]) && super::pager::has_type(b[all[i].0 as int], t) by {
        if i < locs.len() {
            assert(super::cells::cell_at(a, locs[i].0 as int, locs[i].1 as int) == Some(
                super::cells::all_cells(a, t)->Some_0[i],
            ));
            let p = locs[i].0 as int;
            assert(b[p] == a[p] || (set![t.byte()].contains(a[p][0]) && b[p][0] == a[p][0]));
        }
    }
}

/// Records read as before when strings are added.
pub proof fn nodes_stay(cells: Seq<Seq<u8>>, a: Seq<Seq<char>>, b: Seq<Seq<char>>)
    requires
        a.is_prefix_of(b),
        super::io::nodes_of(cells, a) is Some,
    ensures
        super::io::nodes_of(cells, b) == super::io::nodes_of(cells, a),
    decreases cells.len(),
{
    if cells.len() > 0 {
        nodes_stay(cells.drop_last(), a, b);
        let r = super::record::parse_node(cells.last())->Some_0.0;
        record_stays(r, a, b);
    }
}

/// Records read as before when strings are added.
pub proof fn edges_stay(cells: Seq<Seq<u8>>, a: Seq<Seq<char>>, b: Seq<Seq<char>>)
    requires
        a.is_prefix_of(b),
        super::io::edges_of(cells, a) is Some,
    ensures
        super::io::edges_of(cells, b) == super::io::edges_of(cells, a),
    decreases cells.len(),
{
    if cells.len() > 0 {
        edges_stay(cells.drop_last(), a, b);
        let r = super::record::parse_edge(cells.last())->Some_0;
        record_stays(r.node, a, b);
    }
}

proof fn record_stays(r: RecordView, a: Seq<Seq<char>>, b: Seq<Seq<char>>)
    requires
        a.is_prefix_of(b),
        super::io::record_node(r, a) is Some,
    ensures
        super::io::record_node(r, b) == super::io::record_node(r, a),
{
    super::values::ids_stay(r.label_str_ids, a, b);
    super::values::fields_stay(r.props, a, b);
    assert(b.subrange(0, a.len() as int)[r.user_id_str_id as int] == a[r.user_id_str_id as int]);
}

proof fn labels_stay(
    sids: Seq<Vec<u32>>,
    a: Seq<Seq<char>>,
    b: Seq<Seq<char>>,
    labels: Seq<LabelTypeView>,
)
    requires
        a.is_prefix_of(b),
        labels_known(sids, a, labels),
    ensures
        labels_known(sids, b, labels),
{
    assert forall|i: int| 0 <= i < sids.len() implies super::values::resolve_ids(
        (#[trigger] sids[i])@,
        b,
    ) == Some(labels[i].required()) by {
        super::values::ids_stay(sids[i]@, a, b);
    }
}

/// How many bytes the record of a node takes: its name, its labels with their
/// count, and its properties with theirs.
pub open spec fn record_size(
    labels: LabelTypeView,
    props: Map<Seq<char>, crate::model::value::ValueView>,
) -> nat {
    8 + 4 * labels.required().len() + super::values::props_size(props)
}

/// How many pages the texts of an element take at most.
pub open spec fn element_pages(
    name: Seq<char>,
    labels: LabelTypeView,
    props: Map<Seq<char>, crate::model::value::ValueView>,
) -> nat {
    super::string_table::text_pages(name) + super::values::texts_pages(labels.required())
        + super::values::props_pages(props)
}

/// What in an element keeps it from being stored.
pub open spec fn element_blocks(
    name: Seq<char>,
    labels: LabelTypeView,
    props: Map<Seq<char>, crate::model::value::ValueView>,
    extra: int,
    e: StoreError,
) -> bool {
    ||| e == StoreError::TextTooLong && super::string_table::long_text(name)
    ||| e == StoreError::TextTooLong && exists|i: int|
        0 <= i < labels.required().len() && super::string_table::long_text(
            #[trigger] labels.required()[i],
        )
    ||| super::values::props_block(props, e)
    ||| e == StoreError::CellTooLarge && record_size(labels, props) + extra
        > super::cells::MAX_CELL
}

/// The bytes that an edge has beyond a node.
pub const EDGE_EXTRA: usize = 9;

proof fn labels_short(list: Seq<String>)
    requires
        forall|i: int|
            0 <= i < list.len() ==> !super::string_table::long_text((#[trigger] list[i])@),
    ensures
        forall|i: int|
            0 <= i < list.len() ==> !super::string_table::long_text(
                #[trigger] crate::text::texts(list)[i],
            ),
{
    assert forall|i: int| 0 <= i < list.len() implies !super::string_table::long_text(
        #[trigger] crate::text::texts(list)[i],
    ) by {
        assert(!super::string_table::long_text(list[i]@));
    }
}

impl Writer {
    /// The pages.
    pub open spec fn pages(&self) -> Seq<Seq<u8>> {
        self.pager@
    }

    /// How many numbers of pages or of strings are in use.
    pub open spec fn used(&self) -> nat {
        super::string_table::numbers_used(self.strings@, self.pager@)
    }

    /// The file holds the given nodes and edges.
    pub open spec fn holds(&self, nodes: Seq<NodeView>, edges: Seq<EdgeView>) -> bool {
        &&& self.pager.wf()
        &&& self.strings.stored(self.pager@)
        &&& self.strings.first() == 1
        &&& self.strings@.no_duplicates()
        &&& located(self.pager@, PageType::NodeData, self.last_node, self.node_locs@)
        &&& located(self.pager@, PageType::EdgeData, self.last_edge, self.edge_locs@)
        &&& super::io::nodes_of(
            super::cells::all_cells(self.pager@, PageType::NodeData)->Some_0,
            self.strings@,
        ) == Some(nodes)
        &&& super::io::edges_of(
            super::cells::all_cells(self.pager@, PageType::EdgeData)->Some_0,
            self.strings@,
        ) == Some(edges)
        &&& labels_known(self.node_sids@, self.strings@, node_label_views(nodes))
        &&& labels_known(self.edge_sids@, self.strings@, edge_label_views(edges))
    }

    /// A new file without records.
    pub fn new() -> (r: Self)
        ensures
            r.holds(Seq::empty(), Seq::empty()),
            r.pager.free@ == Seq::<u32>::empty(),
            r.pager.header == super::pager::Header::none(),
            r.used() == 2,
            r.pager@.len() == 2,
    {
        let mut pager = Pager::create();
        let mut strings = StringTable::new();
        match strings.init(&mut pager) {
            Ok(_) => {},
            Err(_) => {
                assert(false);
            },
        }
        let r = Writer {
            pager,
            strings,
            last_node: None,
            last_edge: None,
            node_locs: Vec::new(),
            edge_locs: Vec::new(),
            node_sids: Vec::new(),
            edge_sids: Vec::new(),
        };
        proof {
            let pages = r.pager@;
            assert(pages.len() == 2);
            assert(pages[1] == super::pager::blank(PageType::StringTable));
            assert(pages[1][0] == PageType::StringTable.byte());
            reveal_with_fuel(super::cells::cells_upto, 3);
            assert(super::cells::all_cells(pages, PageType::NodeData) == Some(
                Seq::<Seq<u8>>::empty(),
            ));
            assert(super::cells::all_cells(pages, PageType::EdgeData) == Some(
                Seq::<Seq<u8>>::empty(),
            ));
        }
        r
    }

    /// What interning did, seen from the records that are there.
    proof fn after_text(
        before: Writer,
        after: Writer,
        nodes: Seq<NodeView>,
        edges: Seq<EdgeView>,
    )
        requires
            before.holds(nodes, edges),
            after.pager.wf(),
            after.strings.stored(after.pager@),
            after.strings.first() == before.strings.first(),
            super::values::text_step(
                before.pager@,
                after.pager@,
                before.strings@,
                after.strings@,
            ),
            after.last_node == before.last_node,
            after.last_edge == before.last_edge,
            after.node_locs == before.node_locs,
            after.edge_locs == before.edge_locs,
            after.node_sids == before.node_sids,
            after.edge_sids == before.edge_sids,
        ensures
            after.holds(nodes, edges),
    {
        let kinds = super::string_table::text_kinds();
        located_frame(
            before.pager@,
            after.pager@,
            kinds,
            PageType::NodeData,
            before.last_node,
            before.node_locs@,
        );
        located_frame(
            before.pager@,
            after.pager@,
            kinds,
            PageType::EdgeData,
            before.last_edge,
            before.edge_locs@,
        );
        nodes_stay(
            super::cells::all_cells(before.pager@, PageType::NodeData)->Some_0,
            before.strings@,
            after.strings@,
        );
        edges_stay(
            super::cells::all_cells(before.pager@, PageType::EdgeData)->Some_0,
            before.strings@,
            after.strings@,
        );
        labels_stay(before.node_sids@, before.strings@, after.strings@, node_label_views(nodes));
        labels_stay(before.edge_sids@, before.strings@, after.strings@, edge_label_views(edges));
    }

    /// Interns the strings of an element.
    fn intern_element(
        &mut self,
        name: &str,
        labels: &LabelType,
        props: &Props,
        nodes: Ghost<Seq<NodeView>>,
        edges: Ghost<Seq<EdgeView>>,
    ) -> (r: Result<(u32, Vec<u32>, Vec<(u32, PropValue)>), StoreError>)
        requires
            old(self).holds(nodes@, edges@),
        ensures
            final(self).pager.wf(),
            final(self).pager.free == old(self).pager.free,
            final(self).pager.header == old(self).pager.header,
            match r {
                Ok((id, sids, fields)) => {
                    &&& final(self).holds(nodes@, edges@)
                    &&& super::values::resolve_ids(sids@, final(self).strings@) == Some(
                        labels@.required(),
                    )
                    &&& super::io::record_node(
                        (RecordView {
                            user_id_str_id: id,
                            label_str_ids: sids@,
                            props: super::record::field_views(fields@),
                        }),
                        final(self).strings@,
                    ) == Some(
                        super::io::stored_node(
                            (NodeView {
                                name: name@,
                                labels: labels@,
                                props: crate::model::value::props_view(*props),
                            }),
                        ),
                    )
                    &&& super::record::node_bytes(
                        (RecordView {
                            user_id_str_id: id,
                            label_str_ids: sids@,
                            props: super::record::field_views(fields@),
                        }),
                    ).len() == record_size(labels@, crate::model::value::props_view(*props))
                    &&& final(self).used() <= old(self).used() + element_pages(
                        name@,
                        labels@,
                        crate::model::value::props_view(*props),
                    )
                    &&& forall|e: StoreError, extra: int|
                        e != StoreError::CellTooLarge ==> !#[trigger] element_blocks(
                            name@,
                            labels@,
                            crate::model::value::props_view(*props),
                            extra,
                            e,
                        )
                    &&& forall|extra: int|
                        record_size(labels@, crate::model::value::props_view(*props)) + extra
                            <= super::cells::MAX_CELL ==> !#[trigger] element_blocks(
                            name@,
                            labels@,
                            crate::model::value::props_view(*props),
                            extra,
                            StoreError::CellTooLarge,
                        )
                },
                Err(e) => (e == StoreError::Full && old(self).used() + element_pages(
                    name@,
                    labels@,
                    crate::model::value::props_view(*props),
                ) > u32::MAX) || element_blocks(
                    name@,
                    labels@,
                    crate::model::value::props_view(*props),
                    0,
                    e,
                ),
            },
    {
        let ghost w0 = *self;
        let id = match intern_text(name, &mut self.strings, &mut self.pager) {
            Ok(id) => id,
            Err(e) => {
                return Err(e);
            },
        };
        let ghost w1 = *self;
        let list = MemoryGraphStore::label_strings(labels);
        let sids = match intern_strings(&list, &mut self.strings, &mut self.pager) {
            Ok(v) => v,
            Err(e) => {
                proof {
                    if e == StoreError::TextTooLong {
                        let i = choose|i: int|
                            0 <= i < list@.len() && super::string_table::long_text(
                                (#[trigger] list@[i])@,
                            );
                        assert(crate::text::texts(list@)[i] == list@[i]@);
                        assert(super::string_table::long_text(labels@.required()[i]));
                    }
                }
                return Err(e);
            },
        };
        let ghost w2 = *self;
        let fields = match encode_props(props, &mut self.strings, &mut self.pager) {
            Ok(v) => v,
            Err(e) => {
                return Err(e);
            },
        };
        proof {
            let w3 = *self;
            super::values::text_steps(
                w0.pager@,
                w1.pager@,
                w2.pager@,
                w0.strings@,
                w1.strings@,
                w2.strings@,
            );
            super::values::text_steps(
                w1.pager@,
                w2.pager@,
                w3.pager@,
                w1.strings@,
                w2.strings@,
                w3.strings@,
            );
            super::values::text_steps(
                w0.pager@,
                w2.pager@,
                w3.pager@,
                w0.strings@,
                w2.strings@,
                w3.strings@,
            );
            Self::after_text(w0, w3, nodes@, edges@);
            super::values::ids_stay(sids@, w2.strings@, w3.strings@);
            super::bytes::number_lengths();
            super::record::id_bytes_len(sids@);
            assert(crate::text::texts(list@) == labels@.required());
            assert forall|e: StoreError, extra: int|
                e != StoreError::CellTooLarge implies !#[trigger] element_blocks(
                name@,
                labels@,
                crate::model::value::props_view(*props),
                extra,
                e,
            ) by {
                labels_short(list@);
            }
            assert forall|extra: int|
                record_size(labels@, crate::model::value::props_view(*props)) + extra
                    <= super::cells::MAX_CELL implies !#[trigger] element_blocks(
                name@,
                labels@,
                crate::model::value::props_view(*props),
                extra,
                StoreError::CellTooLarge,
            ) by {
                assert(!super::values::props_block(
                    crate::model::value::props_view(*props),
                    StoreError::CellTooLarge,
                ));
            }
            assert(w3.strings@.subrange(0, w1.strings@.len() as int)[id as int]
                == w1.strings@[id as int]);
        }
        Ok((id, sids, fields))
    }

    /// Writes a node behind the others.
    pub(crate) fn add_node(
        &mut self,
        name: &str,
        labels: &LabelType,
        props: &Props,
        nodes: Ghost<Seq<NodeView>>,
        edges: Ghost<Seq<EdgeView>>,
    ) -> (r: Result<(), StoreError>)
        requires
            old(self).holds(nodes@, edges@),
        ensures
            final(self).pager.free == old(self).pager.free,
            final(self).pager.header == old(self).pager.header,
            match r {
                Ok(_) => final(self).holds(
                    nodes@.push(
                        super::io::stored_node(
                            (NodeView {
                                name: name@,
                                labels: labels@,
                                props: crate::model::value::props_view(*props),
                            }),
                        ),
                    ),
                    edges@,
                ) && final(self).used() <= old(self).used() + element_pages(
                    name@,
                    labels@,
                    crate::model::value::props_view(*props),
                ) + 1 && forall|e: StoreError|
                    !#[trigger] element_blocks(
                        name@,
                        labels@,
                        crate::model::value::props_view(*props),
                        0,
                        e,
                    ),
                Err(e) => (e == StoreError::Full && old(self).used() + element_pages(
                    name@,
                    labels@,
                    crate::model::value::props_view(*props),
                ) + 1 > u32::MAX) || element_blocks(
                    name@,
                    labels@,
                    crate::model::value::props_view(*props),
                    0,
                    e,
                ),
            },
    {
        let (id, sids, fields) = match self.intern_element(name, labels, props, nodes, edges) {
            Ok(t) => t,
            Err(e) => {
                return Err(e);
            },
        };
        let ghost w0 = *self;
        let ghost n = super::io::stored_node(
            NodeView {
                name: name@,
                labels: labels@,
                props: crate::model::value::props_view(*props),
            },
        );
        let cell = encode_node(id, sids.as_slice(), &fields);
        let ghost rec = RecordView {
            user_id_str_id: id,
            label_str_ids: sids@,
            props: super::record::field_views(fields@),
        };
        let loc = match store_cell(
            &mut self.pager,
            PageType::NodeData,
            &cell,
            &mut self.last_node,
        ) {
            Ok(l) => l,
            Err(e) => {
                proof {
                    if e == StoreError::CellTooLarge {
                        assert(cell@.len() == super::record::node_bytes(rec).len());
                    }
                }
                return Err(e);
            },
        };
        let ghost w1 = *self;
        self.node_locs.push(loc);
        self.node_sids.push(sids);
        proof {
            super::record::short_record(rec);
            super::record::node_round_trip(rec, Seq::empty());
            assert(cell@ + Seq::<u8>::empty() =~= cell@);
            assert(super::io::node_of(cell@, w0.strings@) == Some(n));
            Self::record_added(w0, w1, PageType::NodeData);
            located_push(
                w0.pager@,
                w1.pager@,
                PageType::NodeData,
                w0.last_node,
                w1.last_node,
                w0.node_locs@,
                loc,
                cell@,
            );
            let c0 = super::cells::all_cells(w0.pager@, PageType::NodeData)->Some_0;
            assert(c0.push(cell@).drop_last() =~= c0);
            let labels_after = node_label_views(nodes@.push(n));
            conjunction_labels(labels@.required());
            assert forall|i: int| 0 <= i < self.node_sids@.len() implies super::values::resolve_ids(
                (#[trigger] self.node_sids@[i])@,
                self.strings@,
            ) == Some(labels_after[i].required()) by {
                if i < w0.node_sids@.len() {
                    assert(self.node_sids@[i] == w0.node_sids@[i]);
                    assert(labels_after[i] == node_label_views(nodes@)[i]);
                }
            }
        }
        Ok(())
    }

    /// Writes an edge behind the others.
    pub(crate) fn add_edge(
        &mut self,
        name: &str,
        labels: &LabelType,
        props: &Props,
        src: u32,
        tgt: u32,
        directed: bool,
        nodes: Ghost<Seq<NodeView>>,
        edges: Ghost<Seq<EdgeView>>,
    ) -> (r: Result<(), StoreError>)
        requires
            old(self).holds(nodes@, edges@),
        ensures
            final(self).pager.free == old(self).pager.free,
            final(self).pager.header == old(self).pager.header,
            match r {
                Ok(_) => final(self).holds(
                    nodes@,
                    edges@.push(
                        super::io::stored_edge(
                            (EdgeView {
                                name: name@,
                                labels: labels@,
                                props: crate::model::value::props_view(*props),
                                src,
                                tgt,
                                directed,
                            }),
                        ),
                    ),
                ) && final(self).used() <= old(self).used() + element_pages(
                    name@,
                    labels@,
                    crate::model::value::props_view(*props),
                ) + 1 && forall|e: StoreError|
                    !#[trigger] element_blocks(
                        name@,
                        labels@,
                        crate::model::value::props_view(*props),
                        EDGE_EXTRA as int,
                        e,
                    ),
                Err(e) => (e == StoreError::Full && old(self).used() + element_pages(
                    name@,
                    labels@,
                    crate::model::value::props_view(*props),
                ) + 1 > u32::MAX) || element_blocks(
                    name@,
                    labels@,
                    crate::model::value::props_view(*props),
                    EDGE_EXTRA as int,
                    e,
                ),
            },
    {
        let (id, sids, fields) = match self.intern_element(name, labels, props, nodes, edges) {
            Ok(t) => t,
            Err(e) => {
                return Err(e);
            },
        };
        let ghost w0 = *self;
        let ghost n = super::io::stored_node(
            NodeView {
                name: name@,
                labels: labels@,
                props: crate::model::value::props_view(*props),
            },
        );
        let ghost edge = super::io::stored_edge(
            EdgeView {
                name: name@,
                labels: labels@,
                props: crate::model::value::props_view(*props),
                src,
                tgt,
                directed,
            },
        );
        let cell = encode_edge(id, sids.as_slice(), &fields, src, tgt, directed);
        let ghost node = RecordView {
            user_id_str_id: id,
            label_str_ids: sids@,
            props: super::record::field_views(fields@),
        };
        let ghost rec = EdgeRecordView {
            node,
            src_internal_id: src,
            tgt_internal_id: tgt,
            directed,
        };
        proof {
            super::bytes::number_lengths();
            assert(super::bytes::le32(src).len() == 4);
            assert(super::bytes::le32(tgt).len() == 4);
            assert(cell@.len() == super::record::node_bytes(node).len() + EDGE_EXTRA);
        }
        let loc = match store_cell(
            &mut self.pager,
            PageType::EdgeData,
            &cell,
            &mut self.last_edge,
        ) {
            Ok(l) => l,
            Err(e) => {
                proof {
                    if e == StoreError::CellTooLarge {
                        assert(cell@.len() == super::record::node_bytes(node).len() + EDGE_EXTRA);
                    }
                }
                return Err(e);
            },
        };
        let ghost w1 = *self;
        self.edge_locs.push(loc);
        self.edge_sids.push(sids);
        proof {
            super::record::short_record(node);
            super::record::edge_round_trip(rec);
            assert(super::io::edge_of(cell@, w0.strings@) == Some(edge));
            Self::record_added(w0, w1, PageType::EdgeData);
            located_push(
                w0.pager@,
                w1.pager@,
                PageType::EdgeData,
                w0.last_edge,
                w1.last_edge,
                w0.edge_locs@,
                loc,
                cell@,
            );
            let c0 = super::cells::all_cells(w0.pager@, PageType::EdgeData)->Some_0;
            assert(c0.push(cell@).drop_last() =~= c0);
            let labels_after = edge_label_views(edges@.push(edge));
            conjunction_labels(labels@.required());
            assert forall|i: int| 0 <= i < self.edge_sids@.len() implies super::values::resolve_ids(
                (#[trigger] self.edge_sids@[i])@,
                self.strings@,
            ) == Some(labels_after[i].required()) by {
                if i < w0.edge_sids@.len() {
                    assert(self.edge_sids@[i] == w0.edge_sids@[i]);
                    assert(labels_after[i] == edge_label_views(edges@)[i]);
                }
            }
        }
        Ok(())
    }

    /// A record of one type leaves strings and records of the other type alone.
    proof fn record_added(w0: Writer, w1: Writer, t: PageType)
        requires
            w0.pager.wf(),
            w0.strings.stored(w0.pager@),
            w1.strings == w0.strings,
            super::pager::grown(w0.pager@, w1.pager@, set![t.byte()]),
            t == PageType::NodeData || t == PageType::EdgeData,
        ensures
            w1.strings.stored(w1.pager@),
            t == PageType::NodeData ==> (located(
                w0.pager@,
                PageType::EdgeData,
                w0.last_edge,
                w0.edge_locs@,
            ) ==> located(w1.pager@, PageType::EdgeData, w0.last_edge, w0.edge_locs@)
                && super::cells::all_cells(w1.pager@, PageType::EdgeData)
                == super::cells::all_cells(w0.pager@, PageType::EdgeData)),
            t == PageType::EdgeData ==> (located(
                w0.pager@,
                PageType::NodeData,
                w0.last_node,
                w0.node_locs@,
            ) ==> located(w1.pager@, PageType::NodeData, w0.last_node, w0.node_locs@)
                && super::cells::all_cells(w1.pager@, PageType::NodeData)
                == super::cells::all_cells(w0.pager@, PageType::NodeData)),
    {
        let a = w0.pager@;
        let b = w1.pager@;
        let kinds = set![t.byte()];
        assert(super::string_table::same_pages(a, b, PageType::StringTable)) by {
            assert forall|i: int|
                0 <= i < a.len() && super::pager::has_type(
                    a[i],
                    PageType::StringTable,
                ) implies #[trigger] b[i] == a[i] by {}
        }
        assert(super::string_table::same_pages(a, b, PageType::Overflow)) by {
            assert forall|i: int|
                0 <= i < a.len() && super::pager::has_type(
                    a[i],
                    PageType::Overflow,
                ) implies #[trigger] b[i] == a[i] by {}
        }
        assert(super::string_table::no_more_pages(a, b, PageType::StringTable)) by {
            assert forall|n: int|
                0 <= n < b.len() && super::pager::has_type(
                    #[trigger] b[n],
                    PageType::StringTable,
                ) implies n < a.len() && super::pager::has_type(a[n], PageType::StringTable) by {
                if n >= a.len() {
                    assert(kinds.contains(b[n][0]));
                }
            }
        }
        w0.strings.stored_frame(a, b);
        if t == PageType::NodeData {
            if located(a, PageType::EdgeData, w0.last_edge, w0.edge_locs@) {
                located_frame(a, b, kinds, PageType::EdgeData, w0.last_edge, w0.edge_locs@);
            }
        } else {
            if located(a, PageType::NodeData, w0.last_node, w0.node_locs@) {
                located_frame(a, b, kinds, PageType::NodeData, w0.last_node, w0.node_locs@);
            }
        }
    }
}

/// The constraint that demands some labels demands exactly these.
pub proof fn conjunction_labels(labels: Seq<Seq<char>>)
    ensures
        crate::typing::inference::label_conjunction(labels).required() == labels,
{
    if labels.len() > 0 {
        LabelTypeView::from_list_required(labels);
    } else {
        assert(labels =~= Seq::empty());
    }
}

} // verus!
