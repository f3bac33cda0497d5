//! Questions to a graph with changes beside it: which elements carry a label,
//! which edges stand at a node, which nodes have a value.

use vstd::prelude::*;

use super::adjacency::Side;
use super::key_map::Bound;
use super::lazy::LazyGraphStore;
use super::overlay::{has_label, LabelMods, OverlayEdge, OverlayNode, PropMods};
use crate::model::graph::MemoryGraphStore;
use crate::model::graph_access::GraphAccess;
use crate::model::value::{Id, Value};
use crate::typing::label_type::LabelTypeView;

verus! {

/// The ids of a list that are not deleted.
pub open spec fn alive(list: Seq<Id>, deleted: Set<Id>) -> Seq<Id>
    decreases list.len(),
{
    if list.len() == 0 {
        Seq::empty()
    } else {
        let rest = alive(list.drop_last(), deleted);
        if deleted.contains(list.last()) {
            rest
        } else {
            rest.push(list.last())
        }
    }
}

proof fn alive_members(list: Seq<Id>, deleted: Set<Id>, id: Id)
    ensures
        alive(list, deleted).contains(id) <==> list.contains(id) && !deleted.contains(id),
    decreases list.len(),
{
    if list.len() > 0 {
        let rest = list.drop_last();
        alive_members(rest, deleted, id);
        pushed(alive(rest, deleted), list.last(), id);
        pushed(rest, list.last(), id);
        assert(rest.push(list.last()) =~= list);
    }
}

proof fn pushed(s: Seq<Id>, y: Id, x: Id)
    ensures
        s.push(y).contains(x) <==> s.contains(x) || x == y,
{
    if s.contains(x) {
        let i = choose|i: int| 0 <= i < s.len() && s[i] == x;
        assert(s.push(y)[i] == x);
    }
    assert(s.push(y)[s.len() as int] == y);
    if s.push(y).contains(x) && x != y {
        let i = choose|i: int| 0 <= i < s.push(y).len() && s.push(y)[i] == x;
        assert(s[i] == x);
    }
}

proof fn joined(a: Seq<Id>, b: Seq<Id>, x: Id)
    ensures
        (a + b).contains(x) <==> a.contains(x) || b.contains(x),
{
    if a.contains(x) {
        let i = choose|i: int| 0 <= i < a.len() && a[i] == x;
        assert((a + b)[i] == x);
    }
    if b.contains(x) {
        let i = choose|i: int| 0 <= i < b.len() && b[i] == x;
        assert((a + b)[a.len() + i] == x);
    }
    if (a + b).contains(x) {
        let i = choose|i: int| 0 <= i < (a + b).len() && (a + b)[i] == x;
        if i < a.len() {
            assert(a[i] == x);
        } else {
            assert(b[i - a.len()] == x);
        }
    }
}

/// The listed elements that are wanted, not deleted, and have not lost the
/// label.
pub open spec fn kept_under(
    list: Seq<Id>,
    wanted: Set<Id>,
    deleted: Set<Id>,
    mods: Map<Id, LabelMods>,
    label: Seq<char>,
) -> Seq<Id>
    decreases list.len(),
{
    if list.len() == 0 {
        Seq::empty()
    } else {
        let rest = kept_under(list.drop_last(), wanted, deleted, mods, label);
        let id = list.last();
        if wanted.contains(id) && !deleted.contains(id) && !super::overlay::removed_from(
            mods,
            id,
        ).contains(label) {
            rest.push(id)
        } else {
            rest
        }
    }
}

/// A list with the elements below a count that have gained a label, as far as
/// they are not in it.
pub open spec fn with_gained(
    list: Seq<Id>,
    n: nat,
    wanted: Set<Id>,
    deleted: Set<Id>,
    mods: Map<Id, LabelMods>,
    label: Seq<char>,
) -> Seq<Id>
    decreases n,
{
    if n == 0 {
        list
    } else {
        let rest = with_gained(list, (n - 1) as nat, wanted, deleted, mods, label);
        let id = (n - 1) as Id;
        if wanted.contains(id) && !deleted.contains(id) && super::overlay::added_to(
            mods,
            id,
        ).contains(label) && !rest.contains(id) {
            rest.push(id)
        } else {
            rest
        }
    }
}

/// The new elements that are wanted, not deleted, and carry a label.
pub open spec fn new_under(
    labels: Seq<LabelTypeView>,
    base: int,
    wanted: Set<Id>,
    deleted: Set<Id>,
    label: Seq<char>,
) -> Seq<Id>
    decreases labels.len(),
{
    if labels.len() == 0 {
        Seq::empty()
    } else {
        let rest = new_under(labels.drop_last(), base, wanted, deleted, label);
        let id = (base + labels.len() - 1) as Id;
        if wanted.contains(id) && !deleted.contains(id) && labels.last().required().contains(
            label,
        ) {
            rest.push(id)
        } else {
            rest
        }
    }
}

proof fn kept_members(
    list: Seq<Id>,
    wanted: Set<Id>,
    deleted: Set<Id>,
    mods: Map<Id, LabelMods>,
    label: Seq<char>,
    id: Id,
)
    ensures
        kept_under(list, wanted, deleted, mods, label).contains(id) <==> list.contains(id)
            && wanted.contains(id) && !deleted.contains(id) && !super::overlay::removed_from(
            mods,
            id,
        ).contains(label),
    decreases list.len(),
{
    if list.len() > 0 {
        let rest = list.drop_last();
        kept_members(rest, wanted, deleted, mods, label, id);
        pushed(kept_under(rest, wanted, deleted, mods, label), list.last(), id);
        pushed(rest, list.last(), id);
        assert(rest.push(list.last()) =~= list);
    }
}

proof fn gained_members(
    list: Seq<Id>,
    n: nat,
    wanted: Set<Id>,
    deleted: Set<Id>,
    mods: Map<Id, LabelMods>,
    label: Seq<char>,
    id: Id,
)
    requires
        n <= u32::MAX,
    ensures
        with_gained(list, n, wanted, deleted, mods, label).contains(id) <==> list.contains(id) || (
        id < n && wanted.contains(id) && !deleted.contains(id) && super::overlay::added_to(
            mods,
            id,
        ).contains(label)),
    decreases n,
{
    if n > 0 {
        gained_members(list, (n - 1) as nat, wanted, deleted, mods, label, id);
        pushed(
            with_gained(list, (n - 1) as nat, wanted, deleted, mods, label),
            (n - 1) as Id,
            id,
        );
    }
}

proof fn new_members(
    labels: Seq<LabelTypeView>,
    base: int,
    wanted: Set<Id>,
    deleted: Set<Id>,
    label: Seq<char>,
    id: Id,
)
    requires
        0 <= base,
        base + labels.len() <= u32::MAX,
    ensures
        new_under(labels, base, wanted, deleted, label).contains(id) <==> base <= id < base
            + labels.len() && wanted.contains(id) && !deleted.contains(id)
            && labels[id - base].required().contains(label),
    decreases labels.len(),
{
    if labels.len() > 0 {
        new_members(labels.drop_last(), base, wanted, deleted, label, id);
        pushed(
            new_under(labels.drop_last(), base, wanted, deleted, label),
            (base + labels.len() - 1) as Id,
            id,
        );
    }
}

proof fn pushed_once(s: Seq<Id>, id: Id)
    requires
        s.no_duplicates(),
        !s.contains(id),
    ensures
        s.push(id).no_duplicates(),
{
    let all = s.push(id);
    assert forall|i: int, j: int| 0 <= i < all.len() && 0 <= j < all.len() && i != j implies all[i]
        != all[j] by {
        if i < s.len() && j < s.len() {
            assert(s[i] != s[j]);
        } else if i < s.len() {
            assert(s.contains(s[i]));
        } else {
            assert(s.contains(s[j]));
        }
    }
}

proof fn kept_once(
    list: Seq<Id>,
    wanted: Set<Id>,
    deleted: Set<Id>,
    mods: Map<Id, LabelMods>,
    label: Seq<char>,
)
    requires
        list.no_duplicates(),
    ensures
        kept_under(list, wanted, deleted, mods, label).no_duplicates(),
    decreases list.len(),
{
    if list.len() > 0 {
        let rest = list.drop_last();
        assert(rest.no_duplicates());
        kept_once(rest, wanted, deleted, mods, label);
        let kept = kept_under(rest, wanted, deleted, mods, label);
        kept_members(rest, wanted, deleted, mods, label, list.last());
        assert(!rest.contains(list.last())) by {
            if rest.contains(list.last()) {
                let i = choose|i: int| 0 <= i < rest.len() && rest[i] == list.last();
                assert(list[i] != list[list.len() - 1]);
            }
        }
        pushed_once(kept, list.last());
    }
}

proof fn gained_once(
    list: Seq<Id>,
    n: nat,
    wanted: Set<Id>,
    deleted: Set<Id>,
    mods: Map<Id, LabelMods>,
    label: Seq<char>,
)
    requires
        list.no_duplicates(),
    ensures
        with_gained(list, n, wanted, deleted, mods, label).no_duplicates(),
    decreases n,
{
    if n > 0 {
        gained_once(list, (n - 1) as nat, wanted, deleted, mods, label);
        let rest = with_gained(list, (n - 1) as nat, wanted, deleted, mods, label);
        let id = (n - 1) as Id;
        if !rest.contains(id) {
            pushed_once(rest, id);
        }
    }
}

proof fn new_once(
    labels: Seq<LabelTypeView>,
    base: int,
    wanted: Set<Id>,
    deleted: Set<Id>,
    label: Seq<char>,
)
    requires
        0 <= base,
        base + labels.len() <= u32::MAX,
    ensures
        new_under(labels, base, wanted, deleted, label).no_duplicates(),
    decreases labels.len(),
{
    if labels.len() > 0 {
        let rest = labels.drop_last();
        let id = (base + labels.len() - 1) as Id;
        new_once(rest, base, wanted, deleted, label);
        new_members(rest, base, wanted, deleted, label, id);
        pushed_once(new_under(rest, base, wanted, deleted, label), id);
    }
}

/// A list with nothing taken away.
proof fn kept_all(list: Seq<Id>, label: Seq<char>)
    ensures
        kept_under(list, Set::full(), Set::empty(), Map::empty(), label) == list,
    decreases list.len(),
{
    if list.len() > 0 {
        kept_all(list.drop_last(), label);
        assert(list.drop_last().push(list.last()) =~= list);
    } else {
        assert(list =~= Seq::empty());
    }
}

proof fn gained_none(list: Seq<Id>, n: nat, wanted: Set<Id>, deleted: Set<Id>, label: Seq<char>)
    ensures
        with_gained(list, n, wanted, deleted, Map::empty(), label) == list,
    decreases n,
{
    if n > 0 {
        gained_none(list, (n - 1) as nat, wanted, deleted, label);
    }
}

/// The labels of new nodes.
pub open spec fn new_node_labels(nodes: Seq<OverlayNode>) -> Seq<LabelTypeView> {
    Seq::new(nodes.len(), |i: int| nodes[i].labels@)
}

/// The labels of new edges.
pub open spec fn new_edge_labels(edges: Seq<OverlayEdge>) -> Seq<LabelTypeView> {
    Seq::new(edges.len(), |i: int| edges[i].labels@)
}

/// Whether an id is in a list.
fn has_id(list: &Vec<Id>, id: Id) -> (r: bool)
    ensures
        r == list@.contains(id),
{
    let mut i: usize = 0;
    while i < list.len()
        invariant
            i <= list.len(),
            forall|j: int| 0 <= j < i ==> list@[j] != id,
        decreases list.len() - i,
    {
        if list[i] == id {
            assert(list@[i as int] == id);
            return true;
        }
        i = i + 1;
    }
    false
}

impl LazyGraphStore {
    /// The edges of one kind, with a direction or without.
    pub open spec fn flagged(&self, flag: bool) -> Set<Id> {
        Set::new(|id: Id| id < self.directions().len() && self.directions()[id as int] == flag)
    }

    /// The nodes that carry a label, those of the file first.
    pub open spec fn labelled_nodes(&self, label: Seq<char>) -> Seq<Id> {
        let o = self.overlay;
        with_gained(
            kept_under(
                super::lazy_index::list_of(self.label_to_nodes@, label),
                Set::full(),
                o.deleted_nodes@,
                o.mod_node_labels@,
                label,
            ),
            o.base_node_count as nat,
            Set::full(),
            o.deleted_nodes@,
            o.mod_node_labels@,
            label,
        ) + new_under(
            new_node_labels(o.new_nodes@),
            o.base_node_count as int,
            Set::full(),
            o.deleted_nodes@,
            label,
        )
    }

    /// The edges of one kind that carry a label, those of the file first.
    pub open spec fn labelled_edges(&self, label: Seq<char>, flag: bool) -> Seq<Id> {
        let o = self.overlay;
        let wanted = self.flagged(flag);
        with_gained(
            kept_under(
                super::lazy_index::list_of(self.label_to_edges@, label),
                wanted,
                o.deleted_edges@,
                o.mod_edge_labels@,
                label,
            ),
            o.base_edge_count as nat,
            wanted,
            o.deleted_edges@,
            o.mod_edge_labels@,
            label,
        ) + new_under(
            new_edge_labels(o.new_edges@),
            o.base_edge_count as int,
            wanted,
            o.deleted_edges@,
            label,
        )
    }

    /// Asking for a label finds the nodes that are there and carry it now, as a
    /// look at every node would.
    pub proof fn labelled_nodes_right(&self, label: Seq<char>, id: Id)
        requires
            self.sound(),
            self.indexed(),
        ensures
            self.labelled_nodes(label).contains(id) <==> self.model().node_ids.contains(id)
                && self.node(id).labels.required().contains(label),
    {
        let o = self.overlay;
        let n = o.base_node_count as nat;
        let views = super::writer::node_label_views(self.base.node_seq());
        let list = super::lazy_index::list_of(self.label_to_nodes@, label);
        let kept = kept_under(list, Set::full(), o.deleted_nodes@, o.mod_node_labels@, label);
        let a = with_gained(kept, n, Set::full(), o.deleted_nodes@, o.mod_node_labels@, label);
        let b = new_under(
            new_node_labels(o.new_nodes@),
            n as int,
            Set::full(),
            o.deleted_nodes@,
            label,
        );
        super::lazy::live_ids_members(o.node_total() as nat, o.deleted_nodes@, id);
        joined(a, b, id);
        gained_members(kept, n, Set::full(), o.deleted_nodes@, o.mod_node_labels@, label, id);
        kept_members(list, Set::full(), o.deleted_nodes@, o.mod_node_labels@, label, id);
        new_members(
            new_node_labels(o.new_nodes@),
            n as int,
            Set::full(),
            o.deleted_nodes@,
            label,
            id,
        );
        super::labels::labelled_elements(views, label, id);
        if id < n {
            if o.mod_node_labels@.contains_key(id) {
                let m = o.mod_node_labels@[id];
                let had = views[id as int].required();
                super::overlay::changed_label_members(had, m.added@, m.removed@, label);
                super::writer::conjunction_labels(
                    super::overlay::changed_labels(had, m.added@, m.removed@),
                );
            }
        } else if id < o.node_total() {
            assert(new_node_labels(o.new_nodes@)[id - n] == o.new_nodes@[id - n].labels@);
        }
    }

    /// Where no node of the file has a label twice, asking for a label gives each
    /// node once, whatever has been changed.
    pub proof fn labelled_nodes_once(&self, label: Seq<char>)
        requires
            self.sound(),
            self.indexed(),
            forall|i: int|
                0 <= i < self.base.node_seq().len() ==> (
                #[trigger] self.base.node_seq()[i]).labels.required().no_duplicates(),
        ensures
            self.labelled_nodes(label).no_duplicates(),
    {
        let o = self.overlay;
        let n = o.base_node_count as nat;
        let views = super::writer::node_label_views(self.base.node_seq());
        let list = super::lazy_index::list_of(self.label_to_nodes@, label);
        let kept = kept_under(list, Set::full(), o.deleted_nodes@, o.mod_node_labels@, label);
        let labels = new_node_labels(o.new_nodes@);
        let a = with_gained(kept, n, Set::full(), o.deleted_nodes@, o.mod_node_labels@, label);
        let b = new_under(labels, n as int, Set::full(), o.deleted_nodes@, label);
        assert forall|i: int| 0 <= i < views.len() implies (
        #[trigger] views[i]).required().no_duplicates() by {
            assert(self.base.node_seq()[i].labels.required().no_duplicates());
        }
        super::labels::labelled_once(views, label);
        kept_once(list, Set::full(), o.deleted_nodes@, o.mod_node_labels@, label);
        gained_once(kept, n, Set::full(), o.deleted_nodes@, o.mod_node_labels@, label);
        new_once(labels, n as int, Set::full(), o.deleted_nodes@, label);
        let all = a + b;
        assert forall|i: int| 0 <= i < a.len() implies (#[trigger] a[i]) < n by {
            let id = a[i];
            assert(a.contains(id));
            gained_members(kept, n, Set::full(), o.deleted_nodes@, o.mod_node_labels@, label, id);
            kept_members(list, Set::full(), o.deleted_nodes@, o.mod_node_labels@, label, id);
            super::labels::labelled_elements(views, label, id);
        }
        assert forall|i: int| 0 <= i < b.len() implies (#[trigger] b[i]) >= n by {
            assert(b.contains(b[i]));
            new_members(labels, n as int, Set::full(), o.deleted_nodes@, label, b[i]);
        }
        assert forall|i: int, j: int| 0 <= i < all.len() && 0 <= j < all.len() && i
            != j implies all[i] != all[j] by {
            if i < a.len() && j < a.len() {
                assert(a[i] != a[j]);
            } else if i >= a.len() && j >= a.len() {
                assert(b[i - a.len()] != b[j - a.len()]);
            } else if i < a.len() {
                assert(a[i] < n && b[j - a.len()] >= n);
            } else {
                assert(a[j] < n && b[i - a.len()] >= n);
            }
        }
    }

    /// The same for edges of either kind.
    pub proof fn labelled_edges_right(&self, label: Seq<char>, flag: bool, id: Id)
        requires
            self.sound(),
            self.indexed(),
        ensures
            self.labelled_edges(label, flag).contains(id) <==> (if flag {
                self.model().directed
            } else {
                self.model().undirected
            }).contains(id) && self.edge(id).labels.required().contains(label),
    {
        let o = self.overlay;
        let n = o.base_edge_count as nat;
        let wanted = self.flagged(flag);
        let views = super::writer::edge_label_views(self.base.edge_seq());
        let list = super::lazy_index::list_of(self.label_to_edges@, label);
        let kept = kept_under(list, wanted, o.deleted_edges@, o.mod_edge_labels@, label);
        let a = with_gained(kept, n, wanted, o.deleted_edges@, o.mod_edge_labels@, label);
        let b = new_under(
            new_edge_labels(o.new_edges@),
            n as int,
            wanted,
            o.deleted_edges@,
            label,
        );
        super::lazy::live_edges_members(self.directions(), o.deleted_edges@, flag, id);
        joined(a, b, id);
        gained_members(kept, n, wanted, o.deleted_edges@, o.mod_edge_labels@, label, id);
        kept_members(list, wanted, o.deleted_edges@, o.mod_edge_labels@, label, id);
        new_members(
            new_edge_labels(o.new_edges@),
            n as int,
            wanted,
            o.deleted_edges@,
            label,
            id,
        );
        super::labels::labelled_elements(views, label, id);
        if id < n {
            if o.mod_edge_labels@.contains_key(id) {
                let m = o.mod_edge_labels@[id];
                let had = views[id as int].required();
                super::overlay::changed_label_members(had, m.added@, m.removed@, label);
                super::writer::conjunction_labels(
                    super::overlay::changed_labels(had, m.added@, m.removed@),
                );
            }
        } else if id < o.edge_total() {
            assert(new_edge_labels(o.new_edges@)[id - n] == o.new_edges@[id - n].labels@);
        }
    }

    /// The nodes that carry a label. Nothing where the file knows no such label
    /// and no node carries it.
    pub fn nodes_with_label(&self, label: &str) -> (r: Option<Vec<Id>>)
        requires
            self.sound(),
        ensures
            match r {
                Some(ids) => ids@ == self.labelled_nodes(label@) && (
                self.label_to_nodes@.contains_key(label@) || ids@.len() > 0),
                None => !self.label_to_nodes@.contains_key(label@) && self.labelled_nodes(
                    label@,
                ).len() == 0,
            },
    {
        broadcast use vstd::std_specs::hash::group_hash_axioms;

        let base = self.label_to_nodes.get(label);
        let known = base.is_some();
        let ghost list = super::lazy_index::list_of(self.label_to_nodes@, label@);
        let ghost o = self.overlay;
        if self.overlay.new_nodes.len() == 0 && self.overlay.deleted_nodes.is_empty()
            && self.overlay.mod_node_labels.is_empty() {
            proof {
                assert(o.deleted_nodes@ =~= Set::<Id>::empty());
                assert(o.mod_node_labels@ =~= Map::<Id, LabelMods>::empty());
                kept_all(list, label@);
                gained_none(
                    list,
                    o.base_node_count as nat,
                    Set::full(),
                    Set::empty(),
                    label@,
                );
                assert(self.labelled_nodes(label@) =~= list);
            }
            return match base {
                Some(v) => Some(super::io::copy_ids(v)),
                None => None,
            };
        }
        let mut out: Vec<Id> = Vec::new();
        match base {
            Some(v) => {
                let mut i: usize = 0;
                while i < v.len()
                    invariant
                        i <= v.len(),
                        o == self.overlay,
                        list == v@,
                        out@ == kept_under(
                            list.take(i as int),
                            Set::full(),
                            o.deleted_nodes@,
                            o.mod_node_labels@,
                            label@,
                        ),
                    decreases v.len() - i,
                {
                    broadcast use vstd::std_specs::hash::group_hash_axioms;

                    assert(list.take(i + 1).drop_last() =~= list.take(i as int));
                    let id = v[i];
                    let lost = match self.overlay.mod_node_labels.get(&id) {
                        Some(m) => m.removed.contains(label),
                        None => false,
                    };
                    if !self.overlay.is_node_deleted(id) && !lost {
                        out.push(id);
                    }
                    i = i + 1;
                }
                assert(list.take(i as int) =~= list);
            },
            None => {},
        }
        let ghost kept = out@;
        let n = self.overlay.base_node_count;
        let mut i: u32 = 0;
        while i < n
            invariant
                i <= n,
                o == self.overlay,
                out@ == with_gained(
                    kept,
                    i as nat,
                    Set::full(),
                    o.deleted_nodes@,
                    o.mod_node_labels@,
                    label@,
                ),
            decreases n - i,
        {
            broadcast use vstd::std_specs::hash::group_hash_axioms;

            match self.overlay.mod_node_labels.get(&i) {
                Some(m) => {
                    if m.added.contains(label) && !self.overlay.is_node_deleted(i) && !has_id(
                        &out,
                        i,
                    ) {
                        out.push(i);
                    }
                },
                None => {},
            }
            i = i + 1;
        }
        let ghost base_part = out@;
        let ghost labels = new_node_labels(o.new_nodes@);
        let mut k: usize = 0;
        assert(base_part + new_under(
            labels.take(0),
            n as int,
            Set::full(),
            o.deleted_nodes@,
            label@,
        ) =~= base_part);
        while k < self.overlay.new_nodes.len()
            invariant
                k <= self.overlay.new_nodes.len(),
                self.sound(),
                o == self.overlay,
                n == o.base_node_count,
                labels == new_node_labels(o.new_nodes@),
                out@ == base_part + new_under(
                    labels.take(k as int),
                    n as int,
                    Set::full(),
                    o.deleted_nodes@,
                    label@,
                ),
            decreases self.overlay.new_nodes.len() - k,
        {
            assert(labels.take(k + 1).drop_last() =~= labels.take(k as int));
            let id = n + k as u32;
            let ghost sofar = new_under(
                labels.take(k as int),
                n as int,
                Set::full(),
                o.deleted_nodes@,
                label@,
            );
            let list = MemoryGraphStore::label_strings(&self.overlay.new_nodes[k].labels);
            if !self.overlay.is_node_deleted(id) && has_label(&list, label) {
                out.push(id);
                assert((base_part + sofar).push(id) =~= base_part + sofar.push(id));
            }
            k = k + 1;
        }
        assert(labels.take(k as int) =~= labels);
        if known || out.len() > 0 {
            Some(out)
        } else {
            None
        }
    }

    /// The edges of one kind that carry a label.
    fn edges_with_label(&self, label: &str, flag: bool) -> (r: Option<Vec<Id>>)
        requires
            self.sound(),
        ensures
            match r {
                Some(ids) => ids@ == self.labelled_edges(label@, flag) && (
                self.label_to_edges@.contains_key(label@) || ids@.len() > 0),
                None => !self.label_to_edges@.contains_key(label@) && self.labelled_edges(
                    label@,
                    flag,
                ).len() == 0,
            },
    {
        let base = self.label_to_edges.get(label);
        let known = base.is_some();
        let ghost list = super::lazy_index::list_of(self.label_to_edges@, label@);
        let ghost o = self.overlay;
        let ghost wanted = self.flagged(flag);
        let mut out: Vec<Id> = Vec::new();
        match base {
            Some(v) => {
                let mut i: usize = 0;
                while i < v.len()
                    invariant
                        i <= v.len(),
                        self.sound(),
                        self.label_to_edges@.contains_key(label@),
                        *v == self.label_to_edges@[label@],
                        wanted == self.flagged(flag),
                        o == self.overlay,
                        list == v@,
                        out@ == kept_under(
                            list.take(i as int),
                            wanted,
                            o.deleted_edges@,
                            o.mod_edge_labels@,
                            label@,
                        ),
                    decreases v.len() - i,
                {
                    broadcast use vstd::std_specs::hash::group_hash_axioms;

                    assert(list.take(i + 1).drop_last() =~= list.take(i as int));
                    let id = v[i];
                    assert(self.label_to_edges@[label@]@[i as int] < self.base.edge_locs@.len());
                    let lost = match self.overlay.mod_edge_labels.get(&id) {
                        Some(m) => m.removed.contains(label),
                        None => false,
                    };
                    assert(self.directions()[id as int] == self.base.edge_directed@[id as int]);
                    if self.base.edge_directed[id as usize] == flag
                        && !self.overlay.is_edge_deleted(id) && !lost {
                        out.push(id);
                    }
                    i = i + 1;
                }
                assert(list.take(i as int) =~= list);
            },
            None => {},
        }
        let ghost kept = out@;
        let n = self.overlay.base_edge_count;
        let mut i: u32 = 0;
        while i < n
            invariant
                i <= n,
                self.sound(),
                n == self.overlay.base_edge_count,
                wanted == self.flagged(flag),
                o == self.overlay,
                out@ == with_gained(
                    kept,
                    i as nat,
                    wanted,
                    o.deleted_edges@,
                    o.mod_edge_labels@,
                    label@,
                ),
            decreases n - i,
        {
            broadcast use vstd::std_specs::hash::group_hash_axioms;

            match self.overlay.mod_edge_labels.get(&i) {
                Some(m) => {
                    assert(self.directions()[i as int] == self.base.edge_directed@[i as int]);
                    if m.added.contains(label) && self.base.edge_directed[i as usize] == flag
                        && !self.overlay.is_edge_deleted(i) && !has_id(&out, i) {
                        out.push(i);
                    }
                },
                None => {},
            }
            i = i + 1;
        }
        let ghost base_part = out@;
        let ghost labels = new_edge_labels(o.new_edges@);
        let mut k: usize = 0;
        assert(base_part + new_under(
            labels.take(0),
            n as int,
            wanted,
            o.deleted_edges@,
            label@,
        ) =~= base_part);
        while k < self.overlay.new_edges.len()
            invariant
                k <= self.overlay.new_edges.len(),
                self.sound(),
                wanted == self.flagged(flag),
                o == self.overlay,
                n == o.base_edge_count,
                labels == new_edge_labels(o.new_edges@),
                out@ == base_part + new_under(
                    labels.take(k as int),
                    n as int,
                    wanted,
                    o.deleted_edges@,
                    label@,
                ),
            decreases self.overlay.new_edges.len() - k,
        {
            assert(labels.take(k + 1).drop_last() =~= labels.take(k as int));
            let id = n + k as u32;
            let ghost sofar = new_under(
                labels.take(k as int),
                n as int,
                wanted,
                o.deleted_edges@,
                label@,
            );
            let list = MemoryGraphStore::label_strings(&self.overlay.new_edges[k].labels);
            assert(self.directions()[id as int] == self.overlay.new_edges@[k as int].directed);
            if self.overlay.new_edges[k].directed == flag && !self.overlay.is_edge_deleted(id)
                && has_label(&list, label) {
                out.push(id);
                assert((base_part + sofar).push(id) =~= base_part + sofar.push(id));
            }
            k = k + 1;
        }
        assert(labels.take(k as int) =~= labels);
        if known || out.len() > 0 {
            Some(out)
        } else {
            None
        }
    }

    /// The directed edges that carry a label.
    pub fn directed_edges_with_label(&self, label: &str) -> (r: Option<Vec<Id>>)
        requires
            self.sound(),
        ensures
            match r {
                Some(ids) => ids@ == self.labelled_edges(label@, true) && (
                self.label_to_edges@.contains_key(label@) || ids@.len() > 0),
                None => !self.label_to_edges@.contains_key(label@) && self.labelled_edges(
                    label@,
                    true,
                ).len() == 0,
            },
    {
        self.edges_with_label(label, true)
    }

    /// The undirected edges that carry a label.
    pub fn undirected_edges_with_label(&self, label: &str) -> (r: Option<Vec<Id>>)
        requires
            self.sound(),
        ensures
            match r {
                Some(ids) => ids@ == self.labelled_edges(label@, false) && (
                self.label_to_edges@.contains_key(label@) || ids@.len() > 0),
                None => !self.label_to_edges@.contains_key(label@) && self.labelled_edges(
                    label@,
                    false,
                ).len() == 0,
            },
    {
        self.edges_with_label(label, false)
    }

    /// The edges of a side at a node, those of the file first.
    pub open spec fn edges_at(&self, side: Side, node: Id) -> Seq<Id> {
        alive(self.adjacency.at(side, node), self.overlay.deleted_edges@) + alive(
            super::overlay::new_at(
                self.overlay.new_edges@,
                self.overlay.base_edge_count as int,
                side,
                node,
            ),
            self.overlay.deleted_edges@,
        )
    }

    /// The edges at a node are those that are there and have it as an end of the
    /// side, as a look at every edge would find.
    pub proof fn edges_at_right(&self, side: Side, node: Id, id: Id)
        requires
            self.sound(),
            self.indexed(),
        ensures
            self.edges_at(side, node).contains(id) <==> (self.model().directed.contains(id)
                || self.model().undirected.contains(id)) && super::adjacency::stands_at(
                self.edge(id),
                side,
                node as int,
            ),
    {
        let o = self.overlay;
        let edges = self.base.edge_seq();
        let n = self.base.node_locs@.len();
        let pairs = super::adjacency::edge_pairs(edges, side);
        let fresh = super::overlay::new_at(o.new_edges@, o.base_edge_count as int, side, node);
        self.adjacency.side(side).slices(pairs, n);
        super::lazy::live_edges_members(self.directions(), o.deleted_edges@, true, id);
        super::lazy::live_edges_members(self.directions(), o.deleted_edges@, false, id);
        joined(
            alive(self.adjacency.at(side, node), o.deleted_edges@),
            alive(fresh, o.deleted_edges@),
            id,
        );
        alive_members(self.adjacency.at(side, node), o.deleted_edges@, id);
        alive_members(fresh, o.deleted_edges@, id);
        new_at_members(o.new_edges@, o.base_edge_count as int, side, node, id);
        super::adjacency::edges_at_node(edges, side, node as int, id);
        if id < o.base_edge_count {
            assert(edges[id as int] == self.base.edge(id as int));
            assert(super::lazy_base::located_edge(
                self.base.pager@,
                self.base.edge_locs@[id as int],
                self.base.strings@,
            ) is Some);
            if node >= n {
                assert(self.adjacency.at(side, node) == Seq::<Id>::empty());
            } else {
                assert(self.adjacency.at(side, node) == super::adjacency::at_node(
                    pairs,
                    node as int,
                ));
            }
        } else if node < n {
            assert(self.adjacency.at(side, node) == super::adjacency::at_node(pairs, node as int));
        }
    }

    fn edges_of(&self, side: Side, node: Id) -> (r: Vec<Id>)
        requires
            self.sound(),
        ensures
            r@ == self.edges_at(side, node),
    {
        broadcast use vstd::std_specs::hash::group_hash_axioms;

        let ghost deleted = self.overlay.deleted_edges@;
        let list = self.adjacency.list_at(side, node);
        let ghost l = list@;
        let mut out: Vec<Id> = Vec::new();
        let mut i: usize = 0;
        while i < list.len()
            invariant
                i <= list.len(),
                l == list@,
                deleted == self.overlay.deleted_edges@,
                out@ == alive(l.take(i as int), deleted),
            decreases list.len() - i,
        {
            assert(l.take(i + 1).drop_last() =~= l.take(i as int));
            if !self.overlay.is_edge_deleted(list[i]) {
                out.push(list[i]);
            }
            i = i + 1;
        }
        assert(l.take(i as int) =~= l);
        let ghost base_part = out@;
        let more = match side {
            Side::Outgoing => self.overlay.new_outgoing.get(&node),
            Side::Incoming => self.overlay.new_incoming.get(&node),
            Side::Undirected => self.overlay.new_undirected.get(&node),
        };
        let ghost fresh = super::overlay::new_at(
            self.overlay.new_edges@,
            self.overlay.base_edge_count as int,
            side,
            node,
        );
        proof {
            assert(super::overlay::list_under(self.overlay.new_outgoing@, node)
                == super::overlay::new_at(
                self.overlay.new_edges@,
                self.overlay.base_edge_count as int,
                Side::Outgoing,
                node,
            ));
        }
        match more {
            Some(v) => {
                assert(v@ == fresh);
                let mut i: usize = 0;
                assert(base_part + alive(fresh.take(0), deleted) =~= base_part);
                while i < v.len()
                    invariant
                        i <= v.len(),
                        v@ == fresh,
                        deleted == self.overlay.deleted_edges@,
                        out@ == base_part + alive(fresh.take(i as int), deleted),
                    decreases v.len() - i,
                {
                    assert(fresh.take(i + 1).drop_last() =~= fresh.take(i as int));
                    let ghost sofar = alive(fresh.take(i as int), deleted);
                    if !self.overlay.is_edge_deleted(v[i]) {
                        out.push(v[i]);
                        assert((base_part + sofar).push(fresh[i as int]) =~= base_part
                            + sofar.push(fresh[i as int]));
                    }
                    i = i + 1;
                }
                assert(fresh.take(i as int) =~= fresh);
            },
            None => {
                assert(fresh == Seq::<Id>::empty());
                assert(base_part + alive(fresh, deleted) =~= base_part);
            },
        }
        out
    }

    /// The directed edges from a node.
    pub fn outgoing_edges(&self, node_id: Id) -> (r: Vec<Id>)
        requires
            self.sound(),
        ensures
            r@ == self.edges_at(Side::Outgoing, node_id),
    {
        self.edges_of(Side::Outgoing, node_id)
    }

    /// The directed edges to a node.
    pub fn incoming_edges(&self, node_id: Id) -> (r: Vec<Id>)
        requires
            self.sound(),
        ensures
            r@ == self.edges_at(Side::Incoming, node_id),
    {
        self.edges_of(Side::Incoming, node_id)
    }

    /// The undirected edges at a node.
    pub fn undirected_edges_of(&self, node_id: Id) -> (r: Vec<Id>)
        requires
            self.sound(),
        ensures
            r@ == self.edges_at(Side::Undirected, node_id),
    {
        self.edges_of(Side::Undirected, node_id)
    }

    /// No node has been added, deleted or changed.
    pub open spec fn nodes_clean(&self) -> bool {
        &&& self.overlay.new_nodes@.len() == 0
        &&& self.overlay.deleted_nodes@ == Set::<Id>::empty()
        &&& self.overlay.mod_node_props@ == Map::<Id, PropMods>::empty()
        &&& self.overlay.mod_node_labels@ == Map::<Id, LabelMods>::empty()
    }

    /// Whether no node has been added, deleted or changed.
    fn check_clean(&self) -> (r: bool)
        ensures
            r == self.nodes_clean(),
    {
        let r = self.overlay.new_nodes.len() == 0 && self.overlay.deleted_nodes.is_empty()
            && self.overlay.mod_node_props.is_empty() && self.overlay.mod_node_labels.is_empty();
        proof {
            let o = self.overlay;
            if r {
                assert(o.deleted_nodes@ =~= Set::<Id>::empty());
                assert(o.mod_node_props@ =~= Map::<Id, PropMods>::empty());
                assert(o.mod_node_labels@ =~= Map::<Id, LabelMods>::empty());
            }
        }
        r
    }

    /// The nodes with a value, from an index. Indexes know the nodes of the file
    /// alone, so with changes to nodes there is no answer.
    pub fn lookup_node_eq(&self, label: &str, prop: &str, value: &Value) -> (r: Option<Vec<Id>>)
        requires
            self.sound(),
        ensures
            match r {
                Some(ids) => self.nodes_clean() && self.secondary.found(label@, prop@, value@)
                    == Some(ids@),
                None => !self.nodes_clean() || self.secondary.found(
                    label@,
                    prop@,
                    value@,
                ) is None,
            },
    {
        if !self.check_clean() {
            return None;
        }
        self.secondary.lookup_eq(label, prop, value)
    }

    /// The nodes with a value in a range, from an index.
    pub fn lookup_node_range(&self, label: &str, prop: &str, lo: &Bound, hi: &Bound) -> (r: Option<
        Vec<Id>,
    >)
        requires
            self.sound(),
        ensures
            match r {
                Some(ids) => {
                    let b = super::secondary_index::bucket(self.secondary.btrees@, label@, prop@);
                    &&& self.nodes_clean()
                    &&& b is Some
                    &&& super::key_map::bound_key(*lo) is Some
                    &&& super::key_map::bound_key(*hi) is Some
                    &&& ids@ == super::key_map::ids_within(
                        b->Some_0@,
                        super::key_map::bound_key(*lo)->Some_0,
                        super::key_map::bound_key(*hi)->Some_0,
                    )
                },
                None => !self.nodes_clean() || super::secondary_index::bucket(
                    self.secondary.btrees@,
                    label@,
                    prop@,
                ) is None || super::key_map::bound_key(*lo) is None || super::key_map::bound_key(
                    *hi,
                ) is None,
            },
    {
        if !self.check_clean() {
            return None;
        }
        self.secondary.lookup_range(label, prop, lo, hi)
    }

    /// All nodes of the file in an ordered index, in the order of their values or
    /// against it. Changes do not touch the answer.
    pub fn lookup_node_ordered(&self, label: &str, prop: &str, ascending: bool) -> (r: Option<
        Vec<Id>,
    >)
        requires
            self.sound(),
        ensures
            match r {
                Some(ids) => {
                    let b = super::secondary_index::bucket(self.secondary.btrees@, label@, prop@);
                    &&& b is Some
                    &&& ids@ == (if ascending {
                        super::key_map::ids_within(
                            b->Some_0@,
                            super::key_map::KeyBoundView::Unbounded,
                            super::key_map::KeyBoundView::Unbounded,
                        )
                    } else {
                        super::key_map::ids_descending(b->Some_0@)
                    })
                },
                None => super::secondary_index::bucket(
                    self.secondary.btrees@,
                    label@,
                    prop@,
                ) is None,
            },
    {
        self.secondary.ordered_ids(label, prop, ascending)
    }
}

proof fn new_at_members(edges: Seq<OverlayEdge>, base: int, side: Side, node: Id, id: Id)
    requires
        0 <= base,
        base + edges.len() <= u32::MAX,
    ensures
        super::overlay::new_at(edges, base, side, node).contains(id) <==> base <= id < base
            + edges.len() && (match side {
            Side::Outgoing => edges[id - base].directed && edges[id - base].src == node,
            Side::Incoming => edges[id - base].directed && edges[id - base].tgt == node,
            Side::Undirected => !edges[id - base].directed && (edges[id - base].src == node
                || edges[id - base].tgt == node),
        }),
    decreases edges.len(),
{
    if edges.len() > 0 {
        new_at_members(edges.drop_last(), base, side, node, id);
        pushed(
            super::overlay::new_at(edges.drop_last(), base, side, node),
            (base + edges.len() - 1) as Id,
            id,
        );
    }
}

} // verus!
