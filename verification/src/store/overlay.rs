//! Changes to a graph that are held beside it: new nodes and edges, deleted
//! ones, and changed properties and labels of those that the graph had before.

use vstd::prelude::*;

use std::collections::{HashMap, HashSet};

use super::adjacency::Side;
use crate::fields::{FieldMap, NameSet};
use crate::model::graph::MemoryGraphStore;
use crate::model::graph_access::{EdgeView, NodeView};
use crate::model::value::{clone_props, Id, Props, Value, ValueView};
use crate::text::{copy_text, same_text};
use crate::typing::inference::labels_to_label_type;
use crate::typing::label_type::LabelType;

verus! {

/// A new node.
pub struct OverlayNode {
    pub labels: LabelType,
    pub props: Props,
}

/// A new edge.
pub struct OverlayEdge {
    pub src: Id,
    pub tgt: Id,
    pub directed: bool,
    pub labels: LabelType,
    pub props: Props,
}

/// Changed properties. Where `cleared` holds, the properties from before are
/// gone; each entry of `set` binds a property, or takes it away.
pub struct PropMods {
    pub cleared: bool,
    pub set: FieldMap<Option<Value>>,
}

/// The properties after changes.
pub open spec fn patched(
    cleared: bool,
    set: Map<Seq<char>, Option<Value>>,
    base: Map<Seq<char>, ValueView>,
) -> Map<Seq<char>, ValueView> {
    Map::new(
        |k: Seq<char>|
            if set.contains_key(k) {
                set[k] is Some
            } else {
                !cleared && base.contains_key(k)
            },
        |k: Seq<char>|
            if set.contains_key(k) {
                set[k]->Some_0@
            } else {
                base[k]
            },
    )
}

impl PropMods {
    /// No change.
    pub fn new() -> (r: Self)
        ensures
            !r.cleared,
            r.set@ == Map::<Seq<char>, Option<Value>>::empty(),
    {
        PropMods { cleared: false, set: FieldMap::new() }
    }

    /// The properties after the changes.
    pub fn apply(&self, base: Props) -> (r: Props)
        ensures
            crate::model::value::props_view(r) == patched(
                self.cleared,
                self.set@,
                crate::model::value::props_view(base),
            ),
    {
        let ghost b = crate::model::value::props_view(base);
        let mut out: Props = if self.cleared {
            FieldMap::new()
        } else {
            base
        };
        let n = self.set.len();
        let ghost keys = self.set.keys();
        let mut i: usize = 0;
        proof {
            assert(keys.take(0).to_set() =~= Set::<Seq<char>>::empty());
            assert(crate::model::value::props_view(out) =~= patched(
                self.cleared,
                self.set@.restrict(keys.take(0).to_set()),
                b,
            ));
        }
        while i < n
            invariant
                i <= n,
                keys == self.set.keys(),
                n == keys.len(),
                keys.no_duplicates(),
                keys.to_set() == self.set@.dom(),
                crate::model::value::props_view(out) == patched(
                    self.cleared,
                    self.set@.restrict(keys.take(i as int).to_set()),
                    b,
                ),
            decreases n - i,
        {
            proof {
                crate::fields::prefix_set_step(keys, i as int);
                assert(self.set@.contains_key(keys[i as int]));
            }
            let ghost before = crate::model::value::props_view(out);
            let ghost k = keys[i as int];
            match self.set.value_at(i) {
                Some(v) => {
                    out.insert(self.set.key_at(i).clone(), v.clone());
                    assert(crate::model::value::props_view(out) =~= before.insert(k, v@));
                },
                None => {
                    let _ = out.remove(self.set.key_at(i).as_str());
                    assert(crate::model::value::props_view(out) =~= before.remove(k));
                },
            }
            i = i + 1;
            assert(crate::model::value::props_view(out) =~= patched(
                self.cleared,
                self.set@.restrict(keys.take(i as int).to_set()),
                b,
            ));
        }
        proof {
            assert(keys.take(n as int) =~= keys);
            assert(self.set@.restrict(keys.to_set()) =~= self.set@);
        }
        out
    }
}

/// Changed labels: those that were added and those that were taken away. No
/// label is in both.
pub struct LabelMods {
    pub added: NameSet,
    pub removed: NameSet,
}

/// The labels that are not taken away, in order.
pub open spec fn kept_labels(labels: Seq<Seq<char>>, removed: Set<Seq<char>>) -> Seq<Seq<char>>
    decreases labels.len(),
{
    if labels.len() == 0 {
        Seq::empty()
    } else {
        let rest = kept_labels(labels.drop_last(), removed);
        if removed.contains(labels.last()) {
            rest
        } else {
            rest.push(labels.last())
        }
    }
}

/// The labels with further ones behind them, as far as they are not there yet.
pub open spec fn joined_labels(labels: Seq<Seq<char>>, more: Seq<Seq<char>>) -> Seq<Seq<char>>
    decreases more.len(),
{
    if more.len() == 0 {
        labels
    } else {
        let rest = joined_labels(labels, more.drop_last());
        if rest.contains(more.last()) {
            rest
        } else {
            rest.push(more.last())
        }
    }
}

/// The labels after changes.
pub open spec fn changed_labels(
    labels: Seq<Seq<char>>,
    added: Set<Seq<char>>,
    removed: Set<Seq<char>>,
) -> Seq<Seq<char>> {
    joined_labels(kept_labels(labels, removed), crate::fields::sorted_names(added))
}

pub proof fn kept_labels_members(labels: Seq<Seq<char>>, removed: Set<Seq<char>>, x: Seq<char>)
    ensures
        kept_labels(labels, removed).contains(x) <==> labels.contains(x) && !removed.contains(x),
    decreases labels.len(),
{
    if labels.len() > 0 {
        let rest = kept_labels(labels.drop_last(), removed);
        kept_labels_members(labels.drop_last(), removed, x);
        pushed_label(rest, labels.last(), x);
        pushed_label(labels.drop_last(), labels.last(), x);
        assert(labels.drop_last().push(labels.last()) =~= labels);
    }
}

pub proof fn joined_labels_members(labels: Seq<Seq<char>>, more: Seq<Seq<char>>, x: Seq<char>)
    ensures
        joined_labels(labels, more).contains(x) <==> labels.contains(x) || more.contains(x),
    decreases more.len(),
{
    if more.len() > 0 {
        let rest = joined_labels(labels, more.drop_last());
        joined_labels_members(labels, more.drop_last(), x);
        pushed_label(rest, more.last(), x);
        pushed_label(more.drop_last(), more.last(), x);
        assert(more.drop_last().push(more.last()) =~= more);
    }
}

proof fn pushed_label(s: Seq<Seq<char>>, y: Seq<char>, x: Seq<char>)
    ensures
        s.push(y).contains(x) <==> s.contains(x) || x == y,
{
    if s.contains(x) {
        let i = choose|i: int| 0 <= i < s.len() && s[i] == x;
        assert(s.push(y)[i] == x);
    }
    assert(s.push(y)[s.len() as int] == y);
    if s.push(y).contains(x) && x != y {
        let i = choose|i: int| 0 <= i < s.push(y).len() && s.push(y)[i] == x;
        assert(s[i] == x);
    }
}

/// An element carries a label after changes exactly where the label was added,
/// or the element had it and it was not taken away.
pub proof fn changed_label_members(
    labels: Seq<Seq<char>>,
    added: Set<Seq<char>>,
    removed: Set<Seq<char>>,
    x: Seq<char>,
)
    requires
        crate::fields::sorted_names(added).to_set() == added,
        added.disjoint(removed),
    ensures
        changed_labels(labels, added, removed).contains(x) <==> (labels.contains(x)
            || added.contains(x)) && !removed.contains(x),
{
    let names = crate::fields::sorted_names(added);
    kept_labels_members(labels, removed, x);
    joined_labels_members(kept_labels(labels, removed), names, x);
    assert(names.to_set().contains(x) <==> names.contains(x));
}

/// The names of a list can be enumerated in ascending order.
proof fn names_enumerated(s: Seq<Seq<char>>)
    ensures
        crate::fields::ascending(crate::fields::sorted_names(s.to_set())),
        crate::fields::sorted_names(s.to_set()).to_set() == s.to_set(),
{
    crate::order::orders_total();
    crate::order::enumeration_of(crate::order::text_order(), s);
    let t = crate::order::enumeration(crate::order::text_order(), s.to_set());
    assert(crate::fields::ascending(t)) by {
        assert forall|i: int, j: int| 0 <= i < j < t.len() implies crate::text::text_lt(
            #[trigger] t[i],
            #[trigger] t[j],
        ) by {
            assert((crate::order::text_order())(t[i], t[j]));
        }
    }
}

/// A label that is there is passed over where it comes again.
proof fn joined_passes(
    labels: Seq<Seq<char>>,
    front: Seq<Seq<char>>,
    x: Seq<char>,
    back: Seq<Seq<char>>,
)
    requires
        labels.contains(x),
    ensures
        joined_labels(labels, front + seq![x] + back) == joined_labels(labels, front + back),
    decreases back.len(),
{
    let all = front + seq![x] + back;
    if back.len() == 0 {
        assert(all.drop_last() =~= front);
        assert(front + back =~= front);
        joined_labels_members(labels, front, x);
    } else {
        assert(all.drop_last() =~= front + seq![x] + back.drop_last());
        assert((front + back).drop_last() =~= front + back.drop_last());
        joined_passes(labels, front, x, back.drop_last());
    }
}

/// To take away what is not there changes nothing.
proof fn kept_passes(labels: Seq<Seq<char>>, removed: Set<Seq<char>>, x: Seq<char>)
    requires
        !labels.contains(x),
    ensures
        kept_labels(labels, removed.insert(x)) == kept_labels(labels, removed),
    decreases labels.len(),
{
    if labels.len() > 0 {
        assert(labels.drop_last().push(labels.last()) =~= labels);
        pushed_label(labels.drop_last(), labels.last(), x);
        kept_passes(labels.drop_last(), removed, x);
    }
}

/// To add a label that an element carries changes nothing.
pub proof fn carried_label_stays(
    labels: Seq<Seq<char>>,
    added: Set<Seq<char>>,
    removed: Set<Seq<char>>,
    x: Seq<char>,
)
    requires
        crate::fields::sorted_names(added).to_set() == added,
        added.disjoint(removed),
        changed_labels(labels, added, removed).contains(x),
    ensures
        changed_labels(labels, added.insert(x), removed.remove(x)) == changed_labels(
            labels,
            added,
            removed,
        ),
{
    changed_label_members(labels, added, removed, x);
    assert(removed.remove(x) =~= removed);
    if added.contains(x) {
        assert(added.insert(x) =~= added);
    } else {
        let names = crate::fields::sorted_names(added);
        let listed = names.push(x);
        assert(listed.to_set() =~= added.insert(x)) by {
            assert forall|y: Seq<char>| listed.to_set().contains(y) <==> added.insert(x).contains(
                y,
            ) by {
                pushed_label(names, x, y);
                assert(names.to_set().contains(y) <==> names.contains(y));
            }
        }
        names_enumerated(listed);
        let more = crate::fields::sorted_names(added.insert(x));
        assert(more.to_set().contains(x));
        let i = choose|i: int| 0 <= i < more.len() && more[i] == x;
        let front = more.take(i);
        let back = more.skip(i + 1);
        assert(more =~= front + seq![x] + back);
        let rest = front + back;
        assert(crate::fields::ascending(rest));
        assert(rest.to_set() =~= added) by {
            assert forall|y: Seq<char>| rest.to_set().contains(y) <==> added.contains(y) by {
                if rest.contains(y) {
                    let j = choose|j: int| 0 <= j < rest.len() && rest[j] == y;
                    let k = if j < i {
                        j
                    } else {
                        j + 1
                    };
                    assert(more[k] == y);
                    assert(more.to_set().contains(y));
                    crate::text::text_lt_irreflexive(x);
                    assert(y != x);
                }
                if added.contains(y) {
                    assert(more.to_set().contains(y));
                    let k = choose|k: int| 0 <= k < more.len() && more[k] == y;
                    assert(k != i);
                    let j = if k < i {
                        k
                    } else {
                        k - 1
                    };
                    assert(rest[j] == y);
                }
            }
        }
        names_enumerated(names);
        crate::fields::ascending_is_unique(rest, names);
        kept_labels_members(labels, removed, x);
        joined_passes(kept_labels(labels, removed), front, x, back);
    }
}

/// To take away a label that an element does not carry changes nothing.
pub proof fn missing_label_stays(
    labels: Seq<Seq<char>>,
    added: Set<Seq<char>>,
    removed: Set<Seq<char>>,
    x: Seq<char>,
)
    requires
        crate::fields::sorted_names(added).to_set() == added,
        added.disjoint(removed),
        !changed_labels(labels, added, removed).contains(x),
    ensures
        changed_labels(labels, added.remove(x), removed.insert(x)) == changed_labels(
            labels,
            added,
            removed,
        ),
{
    changed_label_members(labels, added, removed, x);
    assert(added.remove(x) =~= added);
    if removed.contains(x) {
        assert(removed.insert(x) =~= removed);
    } else {
        kept_passes(labels, removed, x);
    }
}

impl LabelMods {
    /// No change.
    pub fn new() -> (r: Self)
        ensures
            r.added@ == Set::<Seq<char>>::empty(),
            r.removed@ == Set::<Seq<char>>::empty(),
    {
        LabelMods { added: NameSet::new(), removed: NameSet::new() }
    }
}

/// Whether a label is in a list.
pub fn has_label(labels: &Vec<String>, label: &str) -> (r: bool)
    ensures
        r == crate::text::texts(labels@).contains(label@),
{
    let mut i: usize = 0;
    while i < labels.len()
        invariant
            i <= labels.len(),
            forall|j: int| 0 <= j < i ==> crate::text::texts(labels@)[j] != label@,
        decreases labels.len() - i,
    {
        if same_text(labels[i].as_str(), label) {
            assert(crate::text::texts(labels@)[i as int] == label@);
            return true;
        }
        i = i + 1;
    }
    false
}

/// The labels after changes.
pub fn apply_label_mods(labels: &Vec<String>, mods: &LabelMods) -> (r: Vec<String>)
    ensures
        crate::text::texts(r@) == changed_labels(
            crate::text::texts(labels@),
            mods.added@,
            mods.removed@,
        ),
{
    let ghost base = crate::text::texts(labels@);
    let mut out: Vec<String> = Vec::new();
    let mut i: usize = 0;
    assert(crate::text::texts(out@) =~= kept_labels(base.take(0), mods.removed@));
    while i < labels.len()
        invariant
            i <= labels.len(),
            base == crate::text::texts(labels@),
            crate::text::texts(out@) == kept_labels(base.take(i as int), mods.removed@),
        decreases labels.len() - i,
    {
        assert(base.take(i + 1).drop_last() =~= base.take(i as int));
        let ghost before = crate::text::texts(out@);
        if !mods.removed.contains(labels[i].as_str()) {
            out.push(labels[i].clone());
            assert(crate::text::texts(out@) =~= before.push(base[i as int]));
        }
        i = i + 1;
    }
    assert(base.take(i as int) =~= base);
    let ghost kept = crate::text::texts(out@);
    let n = mods.added.len();
    let ghost names = mods.added.names();
    let mut j: usize = 0;
    assert(joined_labels(kept, names.take(0)) == kept);
    while j < n
        invariant
            j <= n,
            n == names.len(),
            names == mods.added.names(),
            crate::text::texts(out@) == joined_labels(kept, names.take(j as int)),
        decreases n - j,
    {
        assert(names.take(j + 1).drop_last() =~= names.take(j as int));
        let ghost before = crate::text::texts(out@);
        if !has_label(&out, mods.added.at(j).as_str()) {
            out.push(mods.added.at(j).clone());
            assert(crate::text::texts(out@) =~= before.push(names[j as int]));
        }
        j = j + 1;
    }
    assert(names.take(j as int) =~= names);
    out
}

/// The labels of a list as a type: no label is the type of everything.
pub fn labels_from_strings(labels: &Vec<String>) -> (r: LabelType)
    ensures
        r@ == crate::typing::inference::label_conjunction(crate::text::texts(labels@)),
{
    labels_to_label_type(labels)
}

/// A label type with one label more.
pub fn label_type_with_added(lt: &LabelType, label: &str) -> (r: LabelType)
    ensures
        r@ == crate::typing::inference::label_conjunction(
            joined_labels(lt@.required(), seq![label@]),
        ),
{
    let mut labels = MemoryGraphStore::label_strings(lt);
    let ghost before = crate::text::texts(labels@);
    assert(seq![label@].drop_last() =~= Seq::<Seq<char>>::empty());
    if !has_label(&labels, label) {
        labels.push(copy_text(label));
        assert(crate::text::texts(labels@) =~= before.push(label@));
    }
    proof {
        reveal_with_fuel(joined_labels, 2);
    }
    labels_from_strings(&labels)
}

/// A label type without a label.
pub fn label_type_with_removed(lt: &LabelType, label: &str) -> (r: LabelType)
    ensures
        r@ == crate::typing::inference::label_conjunction(
            kept_labels(lt@.required(), set![label@]),
        ),
{
    let labels = MemoryGraphStore::label_strings(lt);
    let ghost base = crate::text::texts(labels@);
    let mut out: Vec<String> = Vec::new();
    let mut i: usize = 0;
    assert(crate::text::texts(out@) =~= kept_labels(base.take(0), set![label@]));
    while i < labels.len()
        invariant
            i <= labels.len(),
            base == crate::text::texts(labels@),
            crate::text::texts(out@) == kept_labels(base.take(i as int), set![label@]),
        decreases labels.len() - i,
    {
        assert(base.take(i + 1).drop_last() =~= base.take(i as int));
        let ghost before = crate::text::texts(out@);
        if !same_text(labels[i].as_str(), label) {
            out.push(labels[i].clone());
            assert(crate::text::texts(out@) =~= before.push(base[i as int]));
        }
        i = i + 1;
    }
    assert(base.take(i as int) =~= base);
    labels_from_strings(&out)
}

/// The new edges of one side at a node, in the order in which they came. An
/// undirected edge from a node to itself stands there once.
pub open spec fn new_at(edges: Seq<OverlayEdge>, base: int, side: Side, node: Id) -> Seq<Id>
    decreases edges.len(),
{
    if edges.len() == 0 {
        Seq::empty()
    } else {
        let rest = new_at(edges.drop_last(), base, side, node);
        let e = edges.last();
        let here = match side {
            Side::Outgoing => e.directed && e.src == node,
            Side::Incoming => e.directed && e.tgt == node,
            Side::Undirected => !e.directed && (e.src == node || e.tgt == node),
        };
        if here {
            rest.push((base + edges.len() - 1) as Id)
        } else {
            rest
        }
    }
}

/// The list under a key, empty where there is none.
pub open spec fn list_under(m: Map<Id, Vec<Id>>, key: Id) -> Seq<Id> {
    if m.contains_key(key) {
        m[key]@
    } else {
        Seq::empty()
    }
}

/// No list is empty.
pub open spec fn filled(m: Map<Id, Vec<Id>>) -> bool {
    forall|k: Id| #[trigger] m.contains_key(k) ==> m[k]@.len() > 0
}

/// The name of a new element.
pub open spec fn auto_name(head: Seq<char>, id: Id) -> Seq<char> {
    head + crate::text::decimal(id as nat)
}

/// The changes to a graph. New elements have the ids from the counts of the
/// graph on.
pub struct MutationOverlay {
    pub base_node_count: u32,
    pub base_edge_count: u32,
    pub new_nodes: Vec<OverlayNode>,
    pub new_edges: Vec<OverlayEdge>,
    pub deleted_nodes: HashSet<Id>,
    pub deleted_edges: HashSet<Id>,
    pub mod_node_props: HashMap<Id, PropMods>,
    pub mod_edge_props: HashMap<Id, PropMods>,
    pub mod_node_labels: HashMap<Id, LabelMods>,
    pub mod_edge_labels: HashMap<Id, LabelMods>,
    pub new_outgoing: HashMap<Id, Vec<Id>>,
    pub new_incoming: HashMap<Id, Vec<Id>>,
    pub new_undirected: HashMap<Id, Vec<Id>>,
}

/// Properties after the changes under a key.
pub open spec fn props_after(
    mods: Map<Id, PropMods>,
    id: Id,
    base: Map<Seq<char>, ValueView>,
) -> Map<Seq<char>, ValueView> {
    if mods.contains_key(id) {
        patched(mods[id].cleared, mods[id].set@, base)
    } else {
        base
    }
}

/// Labels after the changes under a key.
pub open spec fn labels_after(
    mods: Map<Id, LabelMods>,
    id: Id,
    base: crate::typing::label_type::LabelTypeView,
) -> crate::typing::label_type::LabelTypeView {
    if mods.contains_key(id) {
        crate::typing::inference::label_conjunction(
            changed_labels(base.required(), mods[id].added@, mods[id].removed@),
        )
    } else {
        base
    }
}

/// Changes to labels of elements below a count, with nothing both added and
/// taken away.
pub open spec fn label_mods_ok(mods: Map<Id, LabelMods>, count: u32) -> bool {
    forall|id: Id| #[trigger]
        mods.contains_key(id) ==> id < count && mods[id].added@.disjoint(mods[id].removed@)
            && crate::fields::sorted_names(mods[id].added@).to_set() == mods[id].added@
}

/// Puts an id behind the list under a key.
fn push_under(m: &mut HashMap<Id, Vec<Id>>, key: Id, id: Id)
    ensures
        forall|k: Id| #[trigger]
            list_under(final(m)@, k) == (if k == key {
                list_under(old(m)@, k).push(id)
            } else {
                list_under(old(m)@, k)
            }),
        filled(old(m)@) ==> filled(final(m)@),
{
    broadcast use vstd::std_specs::hash::group_hash_axioms;

    let mut list = match m.remove(&key) {
        Some(v) => v,
        None => Vec::new(),
    };
    list.push(id);
    let _ = m.insert(key, list);
}

/// The labels that changes add to an element.
pub open spec fn added_to(mods: Map<Id, LabelMods>, id: Id) -> Set<Seq<char>> {
    if mods.contains_key(id) {
        mods[id].added@
    } else {
        Set::empty()
    }
}

/// The labels that changes take from an element.
pub open spec fn removed_from(mods: Map<Id, LabelMods>, id: Id) -> Set<Seq<char>> {
    if mods.contains_key(id) {
        mods[id].removed@
    } else {
        Set::empty()
    }
}

/// Two maps agree but under one key.
pub open spec fn agree_but<V>(a: Map<Id, V>, b: Map<Id, V>, key: Id) -> bool {
    forall|k: Id|
        k != key ==> #[trigger] a.contains_key(k) == b.contains_key(k) && (b.contains_key(k)
            ==> a[k] == b[k])
}

/// The properties with one bound or taken away.
pub open spec fn with_prop(
    props: Map<Seq<char>, ValueView>,
    name: Seq<char>,
    op: Option<ValueView>,
) -> Map<Seq<char>, ValueView> {
    match op {
        Some(v) => props.insert(name, v),
        None => props.remove(name),
    }
}

/// The value of an optional value.
pub open spec fn op_view(op: Option<Value>) -> Option<ValueView> {
    match op {
        Some(v) => Some(v@),
        None => None,
    }
}

/// Notes a change of a property.
fn note_prop(mods: &mut HashMap<Id, PropMods>, id: Id, name: String, op: Option<Value>)
    ensures
        agree_but(final(mods)@, old(mods)@, id),
        forall|base: Map<Seq<char>, ValueView>| #[trigger]
            props_after(final(mods)@, id, base) == with_prop(
                props_after(old(mods)@, id, base),
                name@,
                op_view(op),
            ),
{
    broadcast use vstd::std_specs::hash::group_hash_axioms;

    let ghost m0 = mods@;
    let mut entry = match mods.remove(&id) {
        Some(m) => m,
        None => PropMods::new(),
    };
    let ghost e0 = entry;
    entry.set.insert(name, op);
    let ghost e1 = entry;
    let _ = mods.insert(id, entry);
    proof {
        assert forall|base: Map<Seq<char>, ValueView>| #[trigger]
            props_after(mods@, id, base) == with_prop(
                props_after(m0, id, base),
                name@,
                op_view(op),
            ) by {
            assert(mods@[id] == e1);
            if !m0.contains_key(id) {
                assert(patched(e0.cleared, e0.set@, base) =~= base);
            }
            assert(patched(e1.cleared, e1.set@, base) =~= with_prop(
                patched(e0.cleared, e0.set@, base),
                name@,
                op_view(op),
            ));
        }
    }
}

/// Notes new properties in place of all that were there.
fn note_props(mods: &mut HashMap<Id, PropMods>, id: Id, props: &Props)
    ensures
        agree_but(final(mods)@, old(mods)@, id),
        forall|base: Map<Seq<char>, ValueView>| #[trigger]
            props_after(final(mods)@, id, base) == crate::model::value::props_view(*props),
{
    broadcast use vstd::std_specs::hash::group_hash_axioms;

    let mut set: FieldMap<Option<Value>> = FieldMap::new();
    let n = props.len();
    let ghost keys = props.keys();
    let mut i: usize = 0;
    assert(keys.take(0).to_set() =~= Set::<Seq<char>>::empty());
    while i < n
        invariant
            i <= n,
            keys == props.keys(),
            n == keys.len(),
            keys.no_duplicates(),
            keys.to_set() == props@.dom(),
            set@.dom() == keys.take(i as int).to_set(),
            forall|j: int|
                0 <= j < i ==> set@[#[trigger] keys[j]] is Some && set@[keys[j]]->Some_0@
                    == props@[keys[j]]@,
        decreases n - i,
    {
        proof {
            crate::fields::prefix_set_step(keys, i as int);
        }
        set.insert(props.key_at(i).clone(), Some(props.value_at(i).clone()));
        i = i + 1;
    }
    let ghost s = set@;
    proof {
        assert(keys.take(n as int) =~= keys);
        assert forall|k: Seq<char>| props@.contains_key(k) implies s.contains_key(k) && s[k] is Some
            && s[k]->Some_0@ == props@[k]@ by {
            assert(keys.to_set().contains(k));
            let j = choose|j: int| 0 <= j < keys.len() && keys[j] == k;
            assert(keys[j] == k);
        }
    }
    let entry = PropMods { cleared: true, set };
    let _ = mods.insert(id, entry);
    proof {
        assert forall|base: Map<Seq<char>, ValueView>| #[trigger]
            props_after(mods@, id, base) == crate::model::value::props_view(*props) by {
            assert(patched(true, s, base) =~= crate::model::value::props_view(*props));
        }
    }
}

/// Notes that a label is added or taken away.
fn note_label(mods: &mut HashMap<Id, LabelMods>, id: Id, label: &str, add: bool, Ghost(count): Ghost<
    u32,
>)
    requires
        id < count,
        label_mods_ok(old(mods)@, count),
    ensures
        label_mods_ok(final(mods)@, count),
        agree_but(final(mods)@, old(mods)@, id),
        final(mods)@.contains_key(id),
        added_to(final(mods)@, id) == (if add {
            added_to(old(mods)@, id).insert(label@)
        } else {
            added_to(old(mods)@, id).remove(label@)
        }),
        removed_from(final(mods)@, id) == (if add {
            removed_from(old(mods)@, id).remove(label@)
        } else {
            removed_from(old(mods)@, id).insert(label@)
        }),
{
    broadcast use vstd::std_specs::hash::group_hash_axioms;

    let ghost m0 = mods@;
    let mut entry = match mods.remove(&id) {
        Some(m) => m,
        None => LabelMods::new(),
    };
    assert(entry.added@ == added_to(m0, id));
    assert(entry.removed@ == removed_from(m0, id));
    assert(entry.added@.disjoint(entry.removed@));
    if add {
        entry.removed.remove(label);
        entry.added.insert(copy_text(label));
    } else {
        entry.added.remove(label);
        entry.removed.insert(copy_text(label));
    }
    assert(entry.added@.disjoint(entry.removed@));
    let _ = entry.added.len();
    let ghost e1 = entry;
    let _ = mods.insert(id, entry);
    assert(mods@[id] == e1);
}

/// The labels of an element below the counts after one more change.
pub open spec fn label_noted(
    after: Map<Id, LabelMods>,
    before: Map<Id, LabelMods>,
    id: Id,
    label: Seq<char>,
    add: bool,
) -> bool {
    &&& after.contains_key(id)
    &&& added_to(after, id) == (if add {
        added_to(before, id).insert(label)
    } else {
        added_to(before, id).remove(label)
    })
    &&& removed_from(after, id) == (if add {
        removed_from(before, id).remove(label)
    } else {
        removed_from(before, id).insert(label)
    })
}

/// The labels of an element after one more label is added to it or taken from
/// it. Those of an element below the count are what all changes make of the
/// labels `base` that it has in the graph; those of a new one are what this
/// change makes of the labels `now`.
pub open spec fn relabelled(
    mods: Map<Id, LabelMods>,
    id: Id,
    count: u32,
    base: crate::typing::label_type::LabelTypeView,
    now: crate::typing::label_type::LabelTypeView,
    label: Seq<char>,
    add: bool,
) -> crate::typing::label_type::LabelTypeView {
    let added = added_to(mods, id);
    let removed = removed_from(mods, id);
    crate::typing::inference::label_conjunction(
        if id < count && add {
            changed_labels(base.required(), added.insert(label), removed.remove(label))
        } else if id < count {
            changed_labels(base.required(), added.remove(label), removed.insert(label))
        } else if add {
            joined_labels(now.required(), seq![label])
        } else {
            kept_labels(now.required(), set![label])
        },
    )
}

/// To add a label that an element carries, or to take away one that it does not
/// carry, changes nothing where the labels are a list of names.
pub proof fn relabelled_stays(
    mods: Map<Id, LabelMods>,
    id: Id,
    count: u32,
    base: crate::typing::label_type::LabelTypeView,
    now: crate::typing::label_type::LabelTypeView,
    label: Seq<char>,
    add: bool,
)
    requires
        label_mods_ok(mods, count),
        base == crate::typing::inference::label_conjunction(base.required()),
        now == crate::typing::inference::label_conjunction(now.required()),
        id < count ==> now == labels_after(mods, id, base),
        now.required().contains(label) <==> add,
    ensures
        relabelled(mods, id, count, base, now, label, add) == now,
{
    let had = base.required();
    let none = Set::<Seq<char>>::empty();
    if id < count {
        let added = added_to(mods, id);
        let removed = removed_from(mods, id);
        if !mods.contains_key(id) {
            names_enumerated(Seq::empty());
            assert(Seq::<Seq<char>>::empty().to_set() =~= none);
            assert(crate::fields::sorted_names(none) =~= Seq::empty()) by {
                let s = crate::fields::sorted_names(none);
                if s.len() > 0 {
                    assert(s.to_set().contains(s[0]));
                }
            }
            none_kept(had);
            assert(changed_labels(had, added, removed) == had);
        }
        super::writer::conjunction_labels(changed_labels(had, added, removed));
        if add {
            carried_label_stays(had, added, removed, label);
        } else {
            missing_label_stays(had, added, removed, label);
        }
    } else {
        let have = now.required();
        if add {
            reveal_with_fuel(joined_labels, 2);
            assert(seq![label].drop_last() =~= Seq::<Seq<char>>::empty());
        } else {
            kept_passes(have, none, label);
            none_kept(have);
            assert(none.insert(label) =~= set![label]);
        }
    }
}

/// Where nothing is taken away, every label is kept.
proof fn none_kept(labels: Seq<Seq<char>>)
    ensures
        kept_labels(labels, Set::empty()) == labels,
    decreases labels.len(),
{
    if labels.len() > 0 {
        none_kept(labels.drop_last());
        assert(labels.drop_last().push(labels.last()) =~= labels);
    }
}

impl MutationOverlay {
    /// How many nodes have been known: those of the graph and the new ones.
    pub open spec fn node_total(&self) -> int {
        self.base_node_count + self.new_nodes@.len()
    }

    /// How many edges have been known.
    pub open spec fn edge_total(&self) -> int {
        self.base_edge_count + self.new_edges@.len()
    }

    /// The lists of new edges at nodes.
    pub open spec fn lists_ok(&self) -> bool {
        forall|n: Id|
            {
                &&& #[trigger] list_under(self.new_outgoing@, n) == new_at(
                    self.new_edges@,
                    self.base_edge_count as int,
                    Side::Outgoing,
                    n,
                )
                &&& list_under(self.new_incoming@, n) == new_at(
                    self.new_edges@,
                    self.base_edge_count as int,
                    Side::Incoming,
                    n,
                )
                &&& list_under(self.new_undirected@, n) == new_at(
                    self.new_edges@,
                    self.base_edge_count as int,
                    Side::Undirected,
                    n,
                )
            }
    }

    /// New edges join nodes that are known.
    pub open spec fn ends_known(&self) -> bool {
        forall|i: int|
            0 <= i < self.new_edges@.len() ==> (#[trigger] self.new_edges@[i]).src
                < self.node_total() && self.new_edges@[i].tgt < self.node_total()
    }

    /// A node has a list of new edges only where there are any.
    pub open spec fn lists_filled(&self) -> bool {
        &&& filled(self.new_outgoing@)
        &&& filled(self.new_incoming@)
        &&& filled(self.new_undirected@)
    }

    /// Ids fit, and the lists of new edges and the changes of labels are in
    /// order.
    pub open spec fn wf(&self) -> bool {
        &&& self.node_total() <= u32::MAX
        &&& self.edge_total() <= u32::MAX
        &&& self.lists_ok()
        &&& self.lists_filled()
        &&& label_mods_ok(self.mod_node_labels@, self.base_node_count)
        &&& label_mods_ok(self.mod_edge_labels@, self.base_edge_count)
    }

    /// No change has been made.
    pub open spec fn is_clean(&self) -> bool {
        &&& self.new_nodes@.len() == 0
        &&& self.new_edges@.len() == 0
        &&& self.deleted_nodes@ == Set::<Id>::empty()
        &&& self.deleted_edges@ == Set::<Id>::empty()
        &&& self.mod_node_props@ == Map::<Id, PropMods>::empty()
        &&& self.mod_edge_props@ == Map::<Id, PropMods>::empty()
        &&& self.mod_node_labels@ == Map::<Id, LabelMods>::empty()
        &&& self.mod_edge_labels@ == Map::<Id, LabelMods>::empty()
    }

    /// A node as it is now, where `base` is what the graph had under its id.
    pub open spec fn node(&self, id: Id, base: NodeView) -> NodeView {
        if id < self.base_node_count {
            NodeView {
                name: base.name,
                labels: labels_after(self.mod_node_labels@, id, base.labels),
                props: props_after(self.mod_node_props@, id, base.props),
            }
        } else {
            let n = self.new_nodes@[id - self.base_node_count];
            NodeView {
                name: auto_name("auto-n-"@, id),
                labels: n.labels@,
                props: crate::model::value::props_view(n.props),
            }
        }
    }

    /// An edge as it is now.
    pub open spec fn edge(&self, id: Id, base: EdgeView) -> EdgeView {
        if id < self.base_edge_count {
            EdgeView {
                name: base.name,
                labels: labels_after(self.mod_edge_labels@, id, base.labels),
                props: props_after(self.mod_edge_props@, id, base.props),
                src: base.src,
                tgt: base.tgt,
                directed: base.directed,
            }
        } else {
            let e = self.new_edges@[id - self.base_edge_count];
            EdgeView {
                name: auto_name("auto-e-"@, id),
                labels: e.labels@,
                props: crate::model::value::props_view(e.props),
                src: e.src,
                tgt: e.tgt,
                directed: e.directed,
            }
        }
    }

    /// The counts, the deleted elements and the new edges with their ends are
    /// the same.
    pub open spec fn same_shape(&self, other: &MutationOverlay) -> bool {
        &&& self.base_node_count == other.base_node_count
        &&& self.base_edge_count == other.base_edge_count
        &&& self.new_nodes@.len() == other.new_nodes@.len()
        &&& self.new_edges@.len() == other.new_edges@.len()
        &&& self.deleted_nodes@ == other.deleted_nodes@
        &&& self.deleted_edges@ == other.deleted_edges@
        &&& forall|i: int|
            0 <= i < self.new_edges@.len() ==> same_ends(
                #[trigger] self.new_edges@[i],
                other.new_edges@[i],
            )
        &&& other.ends_known() ==> self.ends_known()
    }

    /// Every edge is the same.
    pub open spec fn same_edges(&self, other: &MutationOverlay) -> bool {
        forall|id: Id, base: EdgeView| #[trigger] self.edge(id, base) == other.edge(id, base)
    }

    /// Every node is the same.
    pub open spec fn same_nodes(&self, other: &MutationOverlay) -> bool {
        forall|id: Id, base: NodeView| #[trigger] self.node(id, base) == other.node(id, base)
    }

    /// Every node but one is the same.
    pub open spec fn other_nodes_same(&self, other: &MutationOverlay, but: Id) -> bool {
        forall|id: Id, base: NodeView|
            id != but && id < other.node_total() ==> #[trigger] self.node(id, base) == other.node(
                id,
                base,
            )
    }

    /// Every edge but one is the same.
    pub open spec fn other_edges_same(&self, other: &MutationOverlay, but: Id) -> bool {
        forall|id: Id, base: EdgeView|
            id != but && id < other.edge_total() ==> #[trigger] self.edge(id, base) == other.edge(
                id,
                base,
            )
    }

    /// No change to a graph with these counts.
    pub fn new(base_node_count: u32, base_edge_count: u32) -> (r: Self)
        ensures
            r.wf(),
            r.is_clean(),
            r.base_node_count == base_node_count,
            r.base_edge_count == base_edge_count,
    {
        broadcast use vstd::std_specs::hash::group_hash_axioms;

        MutationOverlay {
            base_node_count,
            base_edge_count,
            new_nodes: Vec::new(),
            new_edges: Vec::new(),
            deleted_nodes: HashSet::new(),
            deleted_edges: HashSet::new(),
            mod_node_props: HashMap::new(),
            mod_edge_props: HashMap::new(),
            mod_node_labels: HashMap::new(),
            mod_edge_labels: HashMap::new(),
            new_outgoing: HashMap::new(),
            new_incoming: HashMap::new(),
            new_undirected: HashMap::new(),
        }
    }

    /// The id of the next new node.
    pub fn next_node_id(&self) -> (r: Id)
        requires
            self.wf(),
        ensures
            r == self.node_total(),
    {
        self.base_node_count + self.new_nodes.len() as u32
    }

    /// The id of the next new edge.
    pub fn next_edge_id(&self) -> (r: Id)
        requires
            self.wf(),
        ensures
            r == self.edge_total(),
    {
        self.base_edge_count + self.new_edges.len() as u32
    }

    /// Whether a node is deleted.
    pub fn is_node_deleted(&self, id: Id) -> (r: bool)
        ensures
            r == self.deleted_nodes@.contains(id),
    {
        broadcast use vstd::std_specs::hash::group_hash_axioms;

        self.deleted_nodes.contains(&id)
    }

    /// Whether an edge is deleted.
    pub fn is_edge_deleted(&self, id: Id) -> (r: bool)
        ensures
            r == self.deleted_edges@.contains(id),
    {
        broadcast use vstd::std_specs::hash::group_hash_axioms;

        self.deleted_edges.contains(&id)
    }

    /// The new node under an id.
    pub fn get_new_node(&self, id: Id) -> (r: Option<&OverlayNode>)
        ensures
            match r {
                Some(n) => self.base_node_count <= id < self.node_total() && *n
                    == self.new_nodes@[id - self.base_node_count],
                None => !(self.base_node_count <= id < self.node_total()),
            },
    {
        if id < self.base_node_count {
            return None;
        }
        let off = (id - self.base_node_count) as usize;
        if off < self.new_nodes.len() {
            Some(&self.new_nodes[off])
        } else {
            None
        }
    }

    /// The new edge under an id.
    pub fn get_new_edge(&self, id: Id) -> (r: Option<&OverlayEdge>)
        ensures
            match r {
                Some(e) => self.base_edge_count <= id < self.edge_total() && *e
                    == self.new_edges@[id - self.base_edge_count],
                None => !(self.base_edge_count <= id < self.edge_total()),
            },
    {
        if id < self.base_edge_count {
            return None;
        }
        let off = (id - self.base_edge_count) as usize;
        if off < self.new_edges.len() {
            Some(&self.new_edges[off])
        } else {
            None
        }
    }

    /// Adds a node under the next id.
    pub fn insert_node(&mut self, labels: LabelType, props: Props) -> (id: Id)
        requires
            old(self).wf(),
            old(self).node_total() < u32::MAX,
        ensures
            final(self).wf(),
            id == old(self).node_total(),
            final(self).new_nodes@ == old(self).new_nodes@.push((OverlayNode { labels, props })),
            final(self).base_node_count == old(self).base_node_count,
            final(self).base_edge_count == old(self).base_edge_count,
            final(self).new_edges@ == old(self).new_edges@,
            final(self).deleted_nodes@ == old(self).deleted_nodes@,
            final(self).deleted_edges@ == old(self).deleted_edges@,
            final(self).same_edges(old(self)),
            forall|i: Id, base: NodeView|
                i < old(self).node_total() ==> #[trigger] final(self).node(i, base) == old(self).node(i, base),
    {
        let id = self.next_node_id();
        self.new_nodes.push(OverlayNode { labels, props });
        id
    }

    /// Adds an edge under the next id. It stands in the lists of its ends: in
    /// those of outgoing and of incoming edges if it has a direction, else in
    /// those of undirected edges, and once where both ends are one node.
    pub fn insert_edge(
        &mut self,
        src: Id,
        tgt: Id,
        directed: bool,
        labels: LabelType,
        props: Props,
    ) -> (id: Id)
        requires
            old(self).wf(),
            old(self).edge_total() < u32::MAX,
        ensures
            final(self).wf(),
            id == old(self).edge_total(),
            final(self).new_edges@ == old(self).new_edges@.push(
                (OverlayEdge { src, tgt, directed, labels, props }),
            ),
            final(self).base_node_count == old(self).base_node_count,
            final(self).base_edge_count == old(self).base_edge_count,
            final(self).new_nodes@ == old(self).new_nodes@,
            final(self).deleted_nodes@ == old(self).deleted_nodes@,
            final(self).deleted_edges@ == old(self).deleted_edges@,
            final(self).same_nodes(old(self)),
            forall|i: Id, base: EdgeView|
                i < old(self).edge_total() ==> #[trigger] final(self).edge(i, base) == old(self).edge(i, base),
    {
        let id = self.next_edge_id();
        let ghost before = self.new_edges@;
        self.new_edges.push(OverlayEdge { src, tgt, directed, labels, props });
        if directed {
            push_under(&mut self.new_outgoing, src, id);
            push_under(&mut self.new_incoming, tgt, id);
        } else {
            push_under(&mut self.new_undirected, src, id);
            if src != tgt {
                push_under(&mut self.new_undirected, tgt, id);
            }
        }
        proof {
            assert(self.new_edges@.drop_last() =~= before);
            assert forall|n: Id|
                {
                    &&& #[trigger] list_under(self.new_outgoing@, n) == new_at(
                        self.new_edges@,
                        self.base_edge_count as int,
                        Side::Outgoing,
                        n,
                    )
                    &&& list_under(self.new_incoming@, n) == new_at(
                        self.new_edges@,
                        self.base_edge_count as int,
                        Side::Incoming,
                        n,
                    )
                    &&& list_under(self.new_undirected@, n) == new_at(
                        self.new_edges@,
                        self.base_edge_count as int,
                        Side::Undirected,
                        n,
                    )
                } by {
                let was = list_under(old(self).new_outgoing@, n);
                assert(list_under(self.new_incoming@, n) == list_under(self.new_incoming@, n));
                assert(list_under(self.new_undirected@, n) == list_under(
                    self.new_undirected@,
                    n,
                ));
            }
        }
        id
    }

    /// Deletes an edge.
    pub fn delete_edge(&mut self, id: Id)
        requires
            old(self).wf(),
        ensures
            final(self).wf(),
            final(self).deleted_edges@ == old(self).deleted_edges@.insert(id),
            final(self).deleted_nodes@ == old(self).deleted_nodes@,
            final(self).base_node_count == old(self).base_node_count,
            final(self).base_edge_count == old(self).base_edge_count,
            final(self).new_nodes@ == old(self).new_nodes@,
            final(self).new_edges@ == old(self).new_edges@,
            final(self).same_edges(old(self)),
            final(self).same_nodes(old(self)),
    {
        broadcast use vstd::std_specs::hash::group_hash_axioms;

        let _ = self.deleted_edges.insert(id);
    }

    /// Deletes a node. Edges at it stay as they are.
    pub fn delete_node(&mut self, id: Id)
        requires
            old(self).wf(),
        ensures
            final(self).wf(),
            final(self).deleted_nodes@ == old(self).deleted_nodes@.insert(id),
            final(self).deleted_edges@ == old(self).deleted_edges@,
            final(self).base_node_count == old(self).base_node_count,
            final(self).base_edge_count == old(self).base_edge_count,
            final(self).new_nodes@ == old(self).new_nodes@,
            final(self).new_edges@ == old(self).new_edges@,
            final(self).same_edges(old(self)),
            final(self).same_nodes(old(self)),
    {
        broadcast use vstd::std_specs::hash::group_hash_axioms;

        let _ = self.deleted_nodes.insert(id);
    }

    /// Forgets every change.
    pub fn clear(&mut self, new_base_node_count: u32, new_base_edge_count: u32)
        ensures
            final(self).wf(),
            final(self).is_clean(),
            final(self).base_node_count == new_base_node_count,
            final(self).base_edge_count == new_base_edge_count,
    {
        *self = MutationOverlay::new(new_base_node_count, new_base_edge_count);
    }

    proof fn edited_node(&self, was: &MutationOverlay, id: Id)
        requires
            was.wf(),
            self.base_node_count == was.base_node_count,
            self.base_edge_count == was.base_edge_count,
            self.new_edges@ == was.new_edges@,
            self.deleted_nodes@ == was.deleted_nodes@,
            self.deleted_edges@ == was.deleted_edges@,
            self.mod_edge_props@ == was.mod_edge_props@,
            self.mod_edge_labels@ == was.mod_edge_labels@,
            self.new_outgoing@ == was.new_outgoing@,
            self.new_incoming@ == was.new_incoming@,
            self.new_undirected@ == was.new_undirected@,
            self.new_nodes@.len() == was.new_nodes@.len(),
            forall|i: int|
                0 <= i < was.new_nodes@.len() && i != id - was.base_node_count ==> #[trigger] self.new_nodes@[i]
                    == was.new_nodes@[i],
            agree_but(self.mod_node_props@, was.mod_node_props@, id),
            agree_but(self.mod_node_labels@, was.mod_node_labels@, id),
            label_mods_ok(self.mod_node_labels@, self.base_node_count),
            id >= was.base_node_count ==> self.mod_node_props@ == was.mod_node_props@
                && self.mod_node_labels@ == was.mod_node_labels@,
            id >= was.base_node_count + was.new_nodes@.len() ==> self.new_nodes@ == was.new_nodes@,
        ensures
            self.wf(),
            self.same_shape(was),
            self.same_edges(was),
            self.other_nodes_same(was, id),
    {
        assert forall|j: Id, base: NodeView| j != id && j < was.node_total() implies #[trigger] self.node(
            j,
            base,
        ) == was.node(j, base) by {
            if j < was.base_node_count {
                assert(self.mod_node_props@.contains_key(j) == was.mod_node_props@.contains_key(j));
                assert(self.mod_node_labels@.contains_key(j) == was.mod_node_labels@.contains_key(
                    j,
                ));
            } else {
                assert(j - was.base_node_count != id - was.base_node_count);
                assert(self.new_nodes@[j - was.base_node_count] == was.new_nodes@[j - was.base_node_count]);
            }
        }
    }

    proof fn edited_edge(&self, was: &MutationOverlay, id: Id)
        requires
            was.wf(),
            self.base_node_count == was.base_node_count,
            self.base_edge_count == was.base_edge_count,
            self.new_nodes@ == was.new_nodes@,
            self.deleted_nodes@ == was.deleted_nodes@,
            self.deleted_edges@ == was.deleted_edges@,
            self.mod_node_props@ == was.mod_node_props@,
            self.mod_node_labels@ == was.mod_node_labels@,
            self.new_outgoing@ == was.new_outgoing@,
            self.new_incoming@ == was.new_incoming@,
            self.new_undirected@ == was.new_undirected@,
            self.new_edges@.len() == was.new_edges@.len(),
            forall|i: int|
                0 <= i < was.new_edges@.len() && i != id - was.base_edge_count ==> #[trigger] self.new_edges@[i]
                    == was.new_edges@[i],
            forall|i: int|
                0 <= i < was.new_edges@.len() ==> same_ends(
                    #[trigger] self.new_edges@[i],
                    was.new_edges@[i],
                ),
            agree_but(self.mod_edge_props@, was.mod_edge_props@, id),
            agree_but(self.mod_edge_labels@, was.mod_edge_labels@, id),
            label_mods_ok(self.mod_edge_labels@, self.base_edge_count),
            id >= was.base_edge_count ==> self.mod_edge_props@ == was.mod_edge_props@
                && self.mod_edge_labels@ == was.mod_edge_labels@,
            id >= was.base_edge_count + was.new_edges@.len() ==> self.new_edges@ == was.new_edges@,
        ensures
            self.wf(),
            self.same_shape(was),
            self.same_nodes(was),
            self.other_edges_same(was, id),
    {
        assert forall|n: Id| #[trigger] list_under(self.new_outgoing@, n) == new_at(
            self.new_edges@,
            self.base_edge_count as int,
            Side::Outgoing,
            n,
        ) && list_under(self.new_incoming@, n) == new_at(
            self.new_edges@,
            self.base_edge_count as int,
            Side::Incoming,
            n,
        ) && list_under(self.new_undirected@, n) == new_at(
            self.new_edges@,
            self.base_edge_count as int,
            Side::Undirected,
            n,
        ) by {
            let b = self.base_edge_count as int;
            assert(list_under(was.new_outgoing@, n) == list_under(self.new_outgoing@, n));
            new_at_same(self.new_edges@, was.new_edges@, b, Side::Outgoing, n);
            new_at_same(self.new_edges@, was.new_edges@, b, Side::Incoming, n);
            new_at_same(self.new_edges@, was.new_edges@, b, Side::Undirected, n);
        }
        if was.ends_known() {
            assert forall|i: int| 0 <= i < self.new_edges@.len() implies (
            #[trigger] self.new_edges@[i]).src < self.node_total() && self.new_edges@[i].tgt
                < self.node_total() by {
                assert(same_ends(self.new_edges@[i], was.new_edges@[i]));
                assert(was.new_edges@[i].src < was.node_total());
            }
        }
        assert forall|j: Id, base: EdgeView| j != id && j < was.edge_total() implies #[trigger] self.edge(
            j,
            base,
        ) == was.edge(j, base) by {
            if j < was.base_edge_count {
                assert(self.mod_edge_props@.contains_key(j) == was.mod_edge_props@.contains_key(j));
                assert(self.mod_edge_labels@.contains_key(j) == was.mod_edge_labels@.contains_key(
                    j,
                ));
            } else {
                assert(j - was.base_edge_count != id - was.base_edge_count);
                assert(self.new_edges@[j - was.base_edge_count] == was.new_edges@[j - was.base_edge_count]);
            }
        }
    }

    /// Binds a property of a node.
    pub fn set_node_prop(&mut self, id: Id, prop: &str, value: Value)
        requires
            old(self).wf(),
        ensures
            final(self).wf(),
            final(self).same_shape(old(self)),
            final(self).same_edges(old(self)),
            final(self).other_nodes_same(old(self), id),
            forall|base: NodeView|
                id < old(self).node_total() ==> #[trigger] final(self).node(id, base) == (NodeView {
                    props: old(self).node(id, base).props.insert(prop@, value@),
                    ..old(self).node(id, base)
                }),
    {
        if id >= self.base_node_count {
            let off = (id - self.base_node_count) as usize;
            if off < self.new_nodes.len() {
                let ghost w = self.new_nodes@[off as int].props;
                self.new_nodes[off].props.insert(copy_text(prop), value);
                assert(crate::model::value::props_view(self.new_nodes@[off as int].props) =~= crate::model::value::props_view(w).insert(prop@, value@));
            }
        } else {
            note_prop(&mut self.mod_node_props, id, copy_text(prop), Some(value));
        }
        proof {
            self.edited_node(old(self), id);
            assert forall|base: NodeView| id < old(self).node_total() implies #[trigger] self.node(id, base)
                == (NodeView {
                    props: old(self).node(id, base).props.insert(prop@, value@),
                    ..old(self).node(id, base)
                }) by {
                assert(self.node(id, base) =~= (NodeView {
                    props: old(self).node(id, base).props.insert(prop@, value@),
                    ..old(self).node(id, base)
                }));
            }
        }
    }

    /// Gives a node other properties in place of those that it has.
    pub fn replace_node_props(&mut self, id: Id, props: Props)
        requires
            old(self).wf(),
        ensures
            final(self).wf(),
            final(self).same_shape(old(self)),
            final(self).same_edges(old(self)),
            final(self).other_nodes_same(old(self), id),
            forall|base: NodeView|
                id < old(self).node_total() ==> #[trigger] final(self).node(id, base) == (NodeView {
                    props: crate::model::value::props_view(props),
                    ..old(self).node(id, base)
                }),
    {
        if id >= self.base_node_count {
            let off = (id - self.base_node_count) as usize;
            if off < self.new_nodes.len() {
                self.new_nodes[off].props = clone_props(&props);
            }
        } else {
            note_props(&mut self.mod_node_props, id, &props);
        }
        proof {
            self.edited_node(old(self), id);
            assert forall|base: NodeView| id < old(self).node_total() implies #[trigger] self.node(id, base)
                == (NodeView {
                    props: crate::model::value::props_view(props),
                    ..old(self).node(id, base)
                }) by {
                assert(self.node(id, base) =~= (NodeView {
                    props: crate::model::value::props_view(props),
                    ..old(self).node(id, base)
                }));
            }
        }
    }

    /// Takes a property from a node.
    pub fn remove_node_prop(&mut self, id: Id, prop: &str)
        requires
            old(self).wf(),
        ensures
            final(self).wf(),
            final(self).same_shape(old(self)),
            final(self).same_edges(old(self)),
            final(self).other_nodes_same(old(self), id),
            forall|base: NodeView|
                id < old(self).node_total() ==> #[trigger] final(self).node(id, base) == (NodeView {
                    props: old(self).node(id, base).props.remove(prop@),
                    ..old(self).node(id, base)
                }),
    {
        if id >= self.base_node_count {
            let off = (id - self.base_node_count) as usize;
            if off < self.new_nodes.len() {
                let ghost w = self.new_nodes@[off as int].props;
                let _ = self.new_nodes[off].props.remove(prop);
                assert(crate::model::value::props_view(self.new_nodes@[off as int].props) =~= crate::model::value::props_view(w).remove(prop@));
            }
        } else {
            note_prop(&mut self.mod_node_props, id, copy_text(prop), None);
        }
        proof {
            self.edited_node(old(self), id);
            assert forall|base: NodeView| id < old(self).node_total() implies #[trigger] self.node(id, base)
                == (NodeView {
                    props: old(self).node(id, base).props.remove(prop@),
                    ..old(self).node(id, base)
                }) by {
                assert(self.node(id, base) =~= (NodeView {
                    props: old(self).node(id, base).props.remove(prop@),
                    ..old(self).node(id, base)
                }));
            }
        }
    }

    /// Adds a label to a node.
    pub fn add_node_label(&mut self, id: Id, label: &str)
        requires
            old(self).wf(),
        ensures
            final(self).wf(),
            final(self).same_shape(old(self)),
            final(self).same_edges(old(self)),
            final(self).other_nodes_same(old(self), id),
            final(self).mod_node_props@ == old(self).mod_node_props@,
            id < old(self).base_node_count ==> label_noted(
                final(self).mod_node_labels@,
                old(self).mod_node_labels@,
                id,
                label@,
                true,
            ),
            forall|base: NodeView|
                old(self).base_node_count <= id < old(self).node_total() ==> #[trigger] final(self).node(id, base)
                    == (NodeView {
                    labels: crate::typing::inference::label_conjunction(
                        joined_labels(old(self).node(id, base).labels.required(), seq![label@]),
                    ),
                    ..old(self).node(id, base)
                }),
    {
        if id >= self.base_node_count {
            let off = (id - self.base_node_count) as usize;
            if off < self.new_nodes.len() {
                let labels = label_type_with_added(&self.new_nodes[off].labels, label);
                self.new_nodes[off].labels = labels;
            }
        } else {
            note_label(
                &mut self.mod_node_labels,
                id,
                label,
                true,
                Ghost(old(self).base_node_count),
            );
        }
        proof {
            self.edited_node(old(self), id);
        }
    }

    /// Takes a label from a node.
    pub fn remove_node_label(&mut self, id: Id, label: &str)
        requires
            old(self).wf(),
        ensures
            final(self).wf(),
            final(self).same_shape(old(self)),
            final(self).same_edges(old(self)),
            final(self).other_nodes_same(old(self), id),
            final(self).mod_node_props@ == old(self).mod_node_props@,
            id < old(self).base_node_count ==> label_noted(
                final(self).mod_node_labels@,
                old(self).mod_node_labels@,
                id,
                label@,
                false,
            ),
            forall|base: NodeView|
                old(self).base_node_count <= id < old(self).node_total() ==> #[trigger] final(self).node(id, base)
                    == (NodeView {
                    labels: crate::typing::inference::label_conjunction(
                        kept_labels(old(self).node(id, base).labels.required(), set![label@]),
                    ),
                    ..old(self).node(id, base)
                }),
    {
        if id >= self.base_node_count {
            let off = (id - self.base_node_count) as usize;
            if off < self.new_nodes.len() {
                let labels = label_type_with_removed(&self.new_nodes[off].labels, label);
                self.new_nodes[off].labels = labels;
            }
        } else {
            note_label(
                &mut self.mod_node_labels,
                id,
                label,
                false,
                Ghost(old(self).base_node_count),
            );
        }
        proof {
            self.edited_node(old(self), id);
        }
    }

    /// Binds a property of an edge.
    pub fn set_edge_prop(&mut self, id: Id, prop: &str, value: Value)
        requires
            old(self).wf(),
        ensures
            final(self).wf(),
            final(self).same_shape(old(self)),
            final(self).same_nodes(old(self)),
            final(self).other_edges_same(old(self), id),
            forall|base: EdgeView|
                id < old(self).edge_total() ==> #[trigger] final(self).edge(id, base) == (EdgeView {
                    props: old(self).edge(id, base).props.insert(prop@, value@),
                    ..old(self).edge(id, base)
                }),
    {
        if id >= self.base_edge_count {
            let off = (id - self.base_edge_count) as usize;
            if off < self.new_edges.len() {
                let ghost w = self.new_edges@[off as int].props;
                self.new_edges[off].props.insert(copy_text(prop), value);
                assert(crate::model::value::props_view(self.new_edges@[off as int].props) =~= crate::model::value::props_view(w).insert(prop@, value@));
            }
        } else {
            note_prop(&mut self.mod_edge_props, id, copy_text(prop), Some(value));
        }
        proof {
            self.edited_edge(old(self), id);
            assert forall|base: EdgeView| id < old(self).edge_total() implies #[trigger] self.edge(id, base)
                == (EdgeView {
                    props: old(self).edge(id, base).props.insert(prop@, value@),
                    ..old(self).edge(id, base)
                }) by {
                assert(self.edge(id, base) =~= (EdgeView {
                    props: old(self).edge(id, base).props.insert(prop@, value@),
                    ..old(self).edge(id, base)
                }));
            }
        }
    }

    /// Gives an edge other properties in place of those that it has.
    pub fn replace_edge_props(&mut self, id: Id, props: Props)
        requires
            old(self).wf(),
        ensures
            final(self).wf(),
            final(self).same_shape(old(self)),
            final(self).same_nodes(old(self)),
            final(self).other_edges_same(old(self), id),
            forall|base: EdgeView|
                id < old(self).edge_total() ==> #[trigger] final(self).edge(id, base) == (EdgeView {
                    props: crate::model::value::props_view(props),
                    ..old(self).edge(id, base)
                }),
    {
        if id >= self.base_edge_count {
            let off = (id - self.base_edge_count) as usize;
            if off < self.new_edges.len() {
                self.new_edges[off].props = clone_props(&props);
            }
        } else {
            note_props(&mut self.mod_edge_props, id, &props);
        }
        proof {
            self.edited_edge(old(self), id);
            assert forall|base: EdgeView| id < old(self).edge_total() implies #[trigger] self.edge(id, base)
                == (EdgeView {
                    props: crate::model::value::props_view(props),
                    ..old(self).edge(id, base)
                }) by {
                assert(self.edge(id, base) =~= (EdgeView {
                    props: crate::model::value::props_view(props),
                    ..old(self).edge(id, base)
                }));
            }
        }
    }

    /// Takes a property from an edge.
    pub fn remove_edge_prop(&mut self, id: Id, prop: &str)
        requires
            old(self).wf(),
        ensures
            final(self).wf(),
            final(self).same_shape(old(self)),
            final(self).same_nodes(old(self)),
            final(self).other_edges_same(old(self), id),
            forall|base: EdgeView|
                id < old(self).edge_total() ==> #[trigger] final(self).edge(id, base) == (EdgeView {
                    props: old(self).edge(id, base).props.remove(prop@),
                    ..old(self).edge(id, base)
                }),
    {
        if id >= self.base_edge_count {
            let off = (id - self.base_edge_count) as usize;
            if off < self.new_edges.len() {
                let ghost w = self.new_edges@[off as int].props;
                let _ = self.new_edges[off].props.remove(prop);
                assert(crate::model::value::props_view(self.new_edges@[off as int].props) =~= crate::model::value::props_view(w).remove(prop@));
            }
        } else {
            note_prop(&mut self.mod_edge_props, id, copy_text(prop), None);
        }
        proof {
            self.edited_edge(old(self), id);
            assert forall|base: EdgeView| id < old(self).edge_total() implies #[trigger] self.edge(id, base)
                == (EdgeView {
                    props: old(self).edge(id, base).props.remove(prop@),
                    ..old(self).edge(id, base)
                }) by {
                assert(self.edge(id, base) =~= (EdgeView {
                    props: old(self).edge(id, base).props.remove(prop@),
                    ..old(self).edge(id, base)
                }));
            }
        }
    }

    /// Adds a label to an edge.
    pub fn add_edge_label(&mut self, id: Id, label: &str)
        requires
            old(self).wf(),
        ensures
            final(self).wf(),
            final(self).same_shape(old(self)),
            final(self).same_nodes(old(self)),
            final(self).other_edges_same(old(self), id),
            final(self).mod_edge_props@ == old(self).mod_edge_props@,
            id < old(self).base_edge_count ==> label_noted(
                final(self).mod_edge_labels@,
                old(self).mod_edge_labels@,
                id,
                label@,
                true,
            ),
            forall|base: EdgeView|
                old(self).base_edge_count <= id < old(self).edge_total() ==> #[trigger] final(self).edge(id, base)
                    == (EdgeView {
                    labels: crate::typing::inference::label_conjunction(
                        joined_labels(old(self).edge(id, base).labels.required(), seq![label@]),
                    ),
                    ..old(self).edge(id, base)
                }),
    {
        if id >= self.base_edge_count {
            let off = (id - self.base_edge_count) as usize;
            if off < self.new_edges.len() {
                let labels = label_type_with_added(&self.new_edges[off].labels, label);
                self.new_edges[off].labels = labels;
            }
        } else {
            note_label(
                &mut self.mod_edge_labels,
                id,
                label,
                true,
                Ghost(old(self).base_edge_count),
            );
        }
        proof {
            self.edited_edge(old(self), id);
        }
    }

    /// Takes a label from an edge.
    pub fn remove_edge_label(&mut self, id: Id, label: &str)
        requires
            old(self).wf(),
        ensures
            final(self).wf(),
            final(self).same_shape(old(self)),
            final(self).same_nodes(old(self)),
            final(self).other_edges_same(old(self), id),
            final(self).mod_edge_props@ == old(self).mod_edge_props@,
            id < old(self).base_edge_count ==> label_noted(
                final(self).mod_edge_labels@,
                old(self).mod_edge_labels@,
                id,
                label@,
                false,
            ),
            forall|base: EdgeView|
                old(self).base_edge_count <= id < old(self).edge_total() ==> #[trigger] final(self).edge(id, base)
                    == (EdgeView {
                    labels: crate::typing::inference::label_conjunction(
                        kept_labels(old(self).edge(id, base).labels.required(), set![label@]),
                    ),
                    ..old(self).edge(id, base)
                }),
    {
        if id >= self.base_edge_count {
            let off = (id - self.base_edge_count) as usize;
            if off < self.new_edges.len() {
                let labels = label_type_with_removed(&self.new_edges[off].labels, label);
                self.new_edges[off].labels = labels;
            }
        } else {
            note_label(
                &mut self.mod_edge_labels,
                id,
                label,
                false,
                Ghost(old(self).base_edge_count),
            );
        }
        proof {
            self.edited_edge(old(self), id);
        }
    }
}

proof fn new_at_same(a: Seq<OverlayEdge>, b: Seq<OverlayEdge>, base: int, side: Side, node: Id)
    requires
        a.len() == b.len(),
        forall|i: int| 0 <= i < b.len() ==> same_ends(#[trigger] a[i], b[i]),
    ensures
        new_at(a, base, side, node) == new_at(b, base, side, node),
    decreases a.len(),
{
    if a.len() > 0 {
        assert forall|i: int| 0 <= i < b.drop_last().len() implies same_ends(
            #[trigger] a.drop_last()[i],
            b.drop_last()[i],
        ) by {
            assert(same_ends(a[i], b[i]));
        }
        new_at_same(a.drop_last(), b.drop_last(), base, side, node);
        assert(same_ends(a[a.len() - 1], b[b.len() - 1]));
    }
}

/// Two edges have the same ends and both or neither has a direction.
pub open spec fn same_ends(a: OverlayEdge, b: OverlayEdge) -> bool {
    a.src == b.src && a.tgt == b.tgt && a.directed == b.directed
}

} // verus!
