//! Indexes on the properties of nodes. A hash index answers questions for a
//! value, an ordered index also those for a range of values.

use vstd::prelude::*;

use super::index_key::{IndexKey, KeyView};
use super::key_map::{Bound, KeyBound, KeyMap};
use crate::fields::{FieldMap, NameSet};
use crate::model::graph::MemoryGraphStore;
use crate::model::graph_access::{GraphAccess, GraphModel, NodeView};
use crate::model::value::{Id, Props, Value, ValueView};
use crate::text::{copy_text, same_text};

verus! {

/// The kinds of indexes.
#[derive(Debug, Clone, Copy, PartialEq, Eq, Structural)]
pub enum IndexKind {
    Hash,
    BTree,
}

/// What an index is.
#[derive(Debug)]
pub struct IndexSpec {
    pub name: String,
    pub label: String,
    pub prop: String,
    pub kind: IndexKind,
    /// Whether it was inferred, not declared.
    pub auto: bool,
    /// How many different values it files.
    pub entries: usize,
}

/// What an index is, with texts by their contents.
pub ghost struct SpecView {
    pub name: Seq<char>,
    pub label: Seq<char>,
    pub prop: Seq<char>,
    pub kind: IndexKind,
    pub auto: bool,
    pub entries: usize,
}

impl IndexSpec {
    /// The value.
    pub open spec fn view(&self) -> SpecView {
        SpecView {
            name: self.name@,
            label: self.label@,
            prop: self.prop@,
            kind: self.kind,
            auto: self.auto,
            entries: self.entries,
        }
    }

    /// A copy.
    pub fn copy(&self) -> (r: IndexSpec)
        ensures
            r@ == self@,
    {
        IndexSpec {
            name: copy_text(self.name.as_str()),
            label: copy_text(self.label.as_str()),
            prop: copy_text(self.prop.as_str()),
            kind: self.kind,
            auto: self.auto,
            entries: self.entries,
        }
    }
}

/// The values of specifications.
pub open spec fn spec_views(v: Seq<IndexSpec>) -> Seq<SpecView> {
    Seq::new(v.len(), |i: int| v[i]@)
}

/// The map of a label and a property.
pub open spec fn bucket(
    m: Map<Seq<char>, FieldMap<KeyMap>>,
    label: Seq<char>,
    prop: Seq<char>,
) -> Option<KeyMap> {
    if m.contains_key(label) && m[label]@.contains_key(prop) {
        Some(m[label]@[prop])
    } else {
        None
    }
}

fn find_bucket<'a>(m: &'a FieldMap<FieldMap<KeyMap>>, label: &str, prop: &str) -> (r: Option<
    &'a KeyMap,
>)
    ensures
        match r {
            Some(k) => bucket(m@, label@, prop@) == Some(*k),
            None => bucket(m@, label@, prop@) is None,
        },
{
    match m.get(label) {
        Some(inner) => inner.get(prop),
        None => None,
    }
}

fn put_bucket(m: &mut FieldMap<FieldMap<KeyMap>>, label: &str, prop: &str, keys: KeyMap)
    ensures
        forall|l: Seq<char>, p: Seq<char>| #[trigger]
            bucket(final(m)@, l, p) == (if l == label@ && p == prop@ {
                Some(keys)
            } else {
                bucket(old(m)@, l, p)
            }),
{
    let mut inner = match m.remove(label) {
        Some(x) => x,
        None => FieldMap::new(),
    };
    inner.insert(copy_text(prop), keys);
    m.insert(copy_text(label), inner);
}

fn drop_bucket(m: &mut FieldMap<FieldMap<KeyMap>>, label: &str, prop: &str)
    ensures
        forall|l: Seq<char>, p: Seq<char>| #[trigger]
            bucket(final(m)@, l, p) == (if l == label@ && p == prop@ {
                None
            } else {
                bucket(old(m)@, l, p)
            }),
{
    match m.remove(label) {
        Some(x) => {
            let mut inner = x;
            let _ = inner.remove(prop);
            m.insert(copy_text(label), inner);
        },
        None => {},
    }
}

/// The key under which a node files for a property.
pub open spec fn node_key(n: NodeView, prop: Seq<char>) -> Option<KeyView> {
    if n.props.contains_key(prop) {
        super::index_key::key_of(n.props[prop])
    } else {
        None
    }
}

/// The nodes with a label, each with its key.
pub open spec fn label_items(
    m: GraphModel,
    ids: Seq<Id>,
    label: Seq<char>,
    prop: Seq<char>,
) -> Seq<(Id, Option<KeyView>)>
    decreases ids.len(),
{
    if ids.len() == 0 {
        Seq::empty()
    } else {
        let rest = label_items(m, ids.drop_last(), label, prop);
        let n = m.nodes[ids.last()];
        if n.labels.required().contains(label) {
            rest.push((ids.last(), node_key(n, prop)))
        } else {
            rest
        }
    }
}

/// How often a text is in a list.
pub open spec fn times(list: Seq<Seq<char>>, x: Seq<char>) -> nat
    decreases list.len(),
{
    if list.len() == 0 {
        0
    } else {
        times(list.drop_last(), x) + (if list.last() == x {
            1nat
        } else {
            0nat
        })
    }
}

/// The nodes with a label, each with its key and as often as it has the label.
pub open spec fn auto_items(
    m: GraphModel,
    ids: Seq<Id>,
    label: Seq<char>,
    prop: Seq<char>,
) -> Seq<(Id, Option<KeyView>)>
    decreases ids.len(),
{
    if ids.len() == 0 {
        Seq::empty()
    } else {
        let n = m.nodes[ids.last()];
        auto_items(m, ids.drop_last(), label, prop) + Seq::new(
            times(n.labels.required(), label),
            |i: int| (ids.last(), node_key(n, prop)),
        )
    }
}

/// Every item has a key, and no two have the same.
pub open spec fn one_each(items: Seq<(Id, Option<KeyView>)>) -> bool {
    &&& items.len() > 0
    &&& forall|i: int| 0 <= i < items.len() ==> (#[trigger] items[i]).1 is Some
    &&& forall|k: KeyView| (#[trigger] super::key_map::filed(items, k)).len() <= 1
}

/// A label and a property with an inferred index: every node with the label has
/// a value, and no two have the same.
pub open spec fn auto_pair(m: GraphModel, label: Seq<char>, prop: Seq<char>) -> bool {
    one_each(auto_items(m, m.node_ids, label, prop))
}

/// The name of an inferred index.
pub open spec fn auto_name(label: Seq<char>, prop: Seq<char>, kind: IndexKind) -> Seq<char> {
    label + "_"@ + prop + (match kind {
        IndexKind::Hash => "_auto_hash"@,
        IndexKind::BTree => "_auto_btree"@,
    })
}

/// The message where an index of the same kind exists.
pub open spec fn exists_text(label: Seq<char>, prop: Seq<char>, kind: IndexKind) -> Seq<char> {
    (match kind {
        IndexKind::Hash => "a Hash index already exists on (:"@,
        IndexKind::BTree => "a BTree index already exists on (:"@,
    }) + label + " {"@ + prop + "}); drop it first"@
}

/// The first specification with a name, or -1.
pub open spec fn first_named(specs: Seq<SpecView>, name: Seq<char>) -> int
    decreases specs.len(),
{
    if specs.len() == 0 {
        -1
    } else {
        let rest = first_named(specs.drop_last(), name);
        if rest >= 0 {
            rest
        } else if specs.last().name == name {
            specs.len() - 1
        } else {
            -1
        }
    }
}

proof fn first_named_found(specs: Seq<SpecView>, name: Seq<char>, i: int)
    requires
        0 <= i < specs.len(),
        specs[i].name == name,
        forall|j: int| 0 <= j < i ==> (#[trigger] specs[j]).name != name,
    ensures
        first_named(specs, name) == i,
    decreases specs.len(),
{
    if i + 1 < specs.len() {
        assert(specs.drop_last()[i] == specs[i]);
        first_named_found(specs.drop_last(), name, i);
    } else {
        first_named_none(specs.drop_last(), name);
    }
}

proof fn first_named_none(specs: Seq<SpecView>, name: Seq<char>)
    requires
        forall|j: int| 0 <= j < specs.len() ==> (#[trigger] specs[j]).name != name,
    ensures
        first_named(specs, name) == -1,
    decreases specs.len(),
{
    if specs.len() > 0 {
        assert(specs[specs.len() - 1].name != name);
        assert forall|j: int| 0 <= j < specs.drop_last().len() implies (
        #[trigger] specs.drop_last()[j]).name != name by {
            assert(specs[j].name != name);
        }
        first_named_none(specs.drop_last(), name);
    }
}

/// The specification of an inferred index is in a list from a place on.
pub open spec fn listed(
    specs: Seq<SpecView>,
    from: int,
    label: Seq<char>,
    prop: Seq<char>,
    kind: IndexKind,
) -> bool {
    exists|i: int|
        from <= i < specs.len() && #[trigger] is_spec_of(specs[i], label, prop, kind)
}

/// A specification is of an index of a kind on a label and a property.
pub open spec fn is_spec_of(
    s: SpecView,
    label: Seq<char>,
    prop: Seq<char>,
    kind: IndexKind,
) -> bool {
    s.label == label && s.prop == prop && s.kind == kind
}

/// The specification of an inferred index: it has as many entries as there are
/// nodes with the label.
pub open spec fn auto_spec(m: GraphModel, s: SpecView) -> bool {
    &&& s.auto
    &&& s.name == auto_name(s.label, s.prop, s.kind)
    &&& auto_pair(m, s.label, s.prop)
    &&& s.entries == auto_items(m, m.node_ids, s.label, s.prop).len()
}

/// From a place on a list has the specifications of inferred indexes: each once,
/// and all of them.
pub open spec fn auto_listed(specs: Seq<SpecView>, from: int, m: GraphModel) -> bool {
    &&& auto_only(specs, from, m)
    &&& forall|label: Seq<char>, prop: Seq<char>, kind: IndexKind|
        auto_pair(m, label, prop) ==> #[trigger] listed(specs, from, label, prop, kind)
}

/// From a place on a list has specifications of inferred indexes, each once.
pub open spec fn auto_only(specs: Seq<SpecView>, from: int, m: GraphModel) -> bool {
    &&& forall|i: int| from <= i < specs.len() ==> auto_spec(m, #[trigger] specs[i])
    &&& forall|i: int, j: int|
        from <= i < j < specs.len() ==> !is_spec_of(
            #[trigger] specs[j],
            (#[trigger] specs[i]).label,
            specs[i].prop,
            specs[i].kind,
        )
}

proof fn listed_push(
    specs: Seq<SpecView>,
    x: SpecView,
    from: int,
    label: Seq<char>,
    prop: Seq<char>,
    kind: IndexKind,
)
    requires
        0 <= from,
        listed(specs, from, label, prop, kind),
    ensures
        listed(specs.push(x), from, label, prop, kind),
{
    let i = choose|i: int|
        from <= i < specs.len() && #[trigger] is_spec_of(specs[i], label, prop, kind);
    assert(specs.push(x)[i] == specs[i]);
    assert(is_spec_of(specs.push(x)[i], label, prop, kind));
}

/// Under a key there is something exactly where an item has it.
proof fn filed_some(items: Seq<(Id, Option<KeyView>)>, k: KeyView, i: int)
    requires
        0 <= i < items.len(),
        items[i].1 == Some(k),
    ensures
        super::key_map::filed(items, k).len() > 0,
    decreases items.len(),
{
    if i < items.len() - 1 {
        filed_some(items.drop_last(), k, i);
    }
}

/// Two items with one key are both under it.
proof fn filed_two(items: Seq<(Id, Option<KeyView>)>, k: KeyView, i: int, j: int)
    requires
        0 <= i < j < items.len(),
        items[i].1 == Some(k),
        items[j].1 == Some(k),
    ensures
        super::key_map::filed(items, k).len() > 1,
    decreases items.len(),
{
    if j < items.len() - 1 {
        filed_two(items.drop_last(), k, i, j);
    } else {
        filed_some(items.drop_last(), k, i);
    }
}

proof fn filed_from(items: Seq<(Id, Option<KeyView>)>, k: KeyView) -> (i: int)
    requires
        super::key_map::filed(items, k).len() > 0,
    ensures
        0 <= i < items.len(),
        items[i].1 == Some(k),
    decreases items.len(),
{
    if items.last().1 == Some(k) {
        items.len() - 1
    } else {
        filed_from(items.drop_last(), k)
    }
}

/// Where every item has its own key there are as many entries as items.
pub proof fn entries_counted(keys: KeyMap, items: Seq<(Id, Option<KeyView>)>)
    requires
        keys.holds(items),
        one_each(items),
    ensures
        keys@.len() == items.len(),
{
    let a = Seq::new(items.len(), |i: int| items[i].1->Some_0);
    let b = Seq::new(keys@.len(), |i: int| keys@[i].0);
    assert forall|i: int, j: int| 0 <= i < a.len() && 0 <= j < a.len() && i != j implies a[i]
        != a[j] by {
        assert(items[i].1 is Some && items[j].1 is Some);
        if a[i] == a[j] {
            assert(super::key_map::filed(items, a[i]).len() <= 1);
            if i < j {
                filed_two(items, a[i], i, j);
            } else {
                filed_two(items, a[i], j, i);
            }
        }
    }
    assert forall|i: int, j: int| 0 <= i < b.len() && 0 <= j < b.len() && i != j implies b[i]
        != b[j] by {
        super::index_key::key_order_total(keys@[i].0, keys@[j].0, keys@[i].0);
        if i < j {
            assert(keys@[i].0.lt(keys@[j].0));
        } else {
            assert(keys@[j].0.lt(keys@[i].0));
        }
    }
    assert forall|k: KeyView| a.to_set().contains(k) <==> b.to_set().contains(k) by {
        assert(super::key_map::under(keys@, k) == super::key_map::filed(items, k));
        if a.contains(k) {
            let i = choose|i: int| 0 <= i < a.len() && a[i] == k;
            assert(items[i].1 is Some);
            filed_some(items, k, i);
            if !b.contains(k) {
                assert forall|j: int| 0 <= j < keys@.len() implies (#[trigger] keys@[j]).0 != k by {
                    assert(b[j] == keys@[j].0);
                }
                super::key_map::under_none(keys@, k);
            }
        }
        if b.contains(k) {
            let j = choose|j: int| 0 <= j < b.len() && b[j] == k;
            super::key_map::under_entry(keys@, j);
            assert(keys@[j].1.len() > 0);
            let i = filed_from(items, k);
            assert(a[i] == k);
        }
    }
    assert(a.to_set() =~= b.to_set());
    a.unique_seq_to_set();
    b.unique_seq_to_set();
}

/// The indexes of a store.
pub struct SecondaryIndex {
    pub hashes: FieldMap<FieldMap<KeyMap>>,
    pub btrees: FieldMap<FieldMap<KeyMap>>,
    pub specs: Vec<IndexSpec>,
}

/// Every map is in order.
pub open spec fn buckets_ok(m: Map<Seq<char>, FieldMap<KeyMap>>) -> bool {
    forall|l: Seq<char>, p: Seq<char>|
        (#[trigger] bucket(m, l, p)) is Some ==> bucket(m, l, p)->Some_0.wf()
}

/// The key of a property.
pub fn key_in(props: &Props, prop: &str) -> (r: Option<IndexKey>)
    ensures
        super::key_map::key_view(r) == (if props@.contains_key(prop@) {
            super::index_key::key_of(props@[prop@]@)
        } else {
            None
        }),
        r is Some ==> r->Some_0@.ok(),
{
    match props.get(prop) {
        Some(v) => IndexKey::from_value(v),
        None => None,
    }
}

fn joined_name(label: &str, prop: &str, tail: &str) -> (r: String)
    ensures
        r@ == label@ + "_"@ + prop@ + tail@,
{
    let mut s = copy_text(label);
    s.append("_");
    s.append(prop);
    s.append(tail);
    s
}

impl SecondaryIndex {
    /// Every map is in order.
    pub open spec fn wf(&self) -> bool {
        buckets_ok(self.hashes@) && buckets_ok(self.btrees@)
    }

    /// The map of a kind for a label and a property.
    pub open spec fn of_kind(&self, kind: IndexKind, label: Seq<char>, prop: Seq<char>) -> Option<
        KeyMap,
    > {
        match kind {
            IndexKind::Hash => bucket(self.hashes@, label, prop),
            IndexKind::BTree => bucket(self.btrees@, label, prop),
        }
    }

    /// The map that answers questions for a value.
    pub open spec fn for_value(&self, label: Seq<char>, prop: Seq<char>) -> Option<KeyMap> {
        match bucket(self.hashes@, label, prop) {
            Some(k) => Some(k),
            None => bucket(self.btrees@, label, prop),
        }
    }

    /// No index.
    pub fn new() -> (r: Self)
        ensures
            r.wf(),
            r.hashes@ == Map::<Seq<char>, FieldMap<KeyMap>>::empty(),
            r.btrees@ == Map::<Seq<char>, FieldMap<KeyMap>>::empty(),
            spec_views(r.specs@) == Seq::<SpecView>::empty(),
    {
        let r = SecondaryIndex { hashes: FieldMap::new(), btrees: FieldMap::new(), specs: Vec::new() };
        assert(spec_views(r.specs@) =~= Seq::<SpecView>::empty());
        r
    }

    /// What the indexes are.
    pub fn list(&self) -> (r: &Vec<IndexSpec>)
        ensures
            *r == self.specs,
    {
        &self.specs
    }

    /// Whether there is no index.
    pub fn is_empty(&self) -> (r: bool)
        ensures
            r == (self.specs@.len() == 0),
    {
        self.specs.len() == 0
    }

    /// The nodes that are found with a value: none where the value has no key.
    /// Nothing where there is no index to ask.
    pub open spec fn found(&self, label: Seq<char>, prop: Seq<char>, value: ValueView) -> Option<
        Seq<Id>,
    > {
        match self.for_value(label, prop) {
            None => None,
            Some(b) => match super::index_key::key_of(value) {
                None => Some(Seq::empty()),
                Some(k) => Some(super::key_map::under(b@, k)),
            },
        }
    }

    /// The nodes with a value. Nothing where there is no index to ask.
    pub fn lookup_eq(&self, label: &str, prop: &str, value: &Value) -> (r: Option<Vec<Id>>)
        requires
            self.wf(),
        ensures
            match r {
                Some(ids) => self.found(label@, prop@, value@) == Some(ids@),
                None => self.found(label@, prop@, value@) is None,
            },
    {
        let bucket = match find_bucket(&self.hashes, label, prop) {
            Some(b) => b,
            None => match find_bucket(&self.btrees, label, prop) {
                Some(b) => b,
                None => {
                    return None;
                },
            },
        };
        match IndexKey::from_value(value) {
            Some(key) => Some(bucket.get(&key)),
            None => Some(Vec::new()),
        }
    }

    /// The nodes with a value in a range, in the order of values.
    pub fn lookup_range(&self, label: &str, prop: &str, lo: &Bound, hi: &Bound) -> (r: Option<
        Vec<Id>,
    >)
        requires
            self.wf(),
        ensures
            match r {
                Some(ids) => {
                    &&& bucket(self.btrees@, label@, prop@) is Some
                    &&& super::key_map::bound_key(*lo) is Some
                    &&& super::key_map::bound_key(*hi) is Some
                    &&& ids@ == super::key_map::ids_within(
                        bucket(self.btrees@, label@, prop@)->Some_0@,
                        super::key_map::bound_key(*lo)->Some_0,
                        super::key_map::bound_key(*hi)->Some_0,
                    )
                },
                None => bucket(self.btrees@, label@, prop@) is None || super::key_map::bound_key(
                    *lo,
                ) is None || super::key_map::bound_key(*hi) is None,
            },
    {
        let b = match find_bucket(&self.btrees, label, prop) {
            Some(b) => b,
            None => {
                return None;
            },
        };
        match (KeyBound::from_bound(lo), KeyBound::from_bound(hi)) {
            (Some(lo_k), Some(hi_k)) => Some(b.range(&lo_k, &hi_k)),
            _ => None,
        }
    }

    /// Whether there is an ordered index.
    pub fn has_btree(&self, label: &str, prop: &str) -> (r: bool)
        ensures
            r == (bucket(self.btrees@, label@, prop@) is Some),
    {
        find_bucket(&self.btrees, label, prop).is_some()
    }

    /// Whether there is an index.
    pub fn has(&self, label: &str, prop: &str) -> (r: bool)
        ensures
            r == (self.for_value(label@, prop@) is Some),
    {
        find_bucket(&self.hashes, label, prop).is_some() || find_bucket(
            &self.btrees,
            label,
            prop,
        ).is_some()
    }

    /// All nodes of an ordered index, in the order of values or against it.
    pub fn ordered_ids(&self, label: &str, prop: &str, ascending: bool) -> (r: Option<Vec<Id>>)
        requires
            self.wf(),
        ensures
            match r {
                Some(ids) => bucket(self.btrees@, label@, prop@) is Some && ids@ == ({
                    let keys = bucket(self.btrees@, label@, prop@)->Some_0@;
                    if ascending {
                        super::key_map::ids_within(
                            keys,
                            super::key_map::KeyBoundView::Unbounded,
                            super::key_map::KeyBoundView::Unbounded,
                        )
                    } else {
                        super::key_map::ids_descending(keys)
                    }
                }),
                None => bucket(self.btrees@, label@, prop@) is None,
            },
    {
        match find_bucket(&self.btrees, label, prop) {
            Some(b) => if ascending {
                Some(b.range(&KeyBound::Unbounded, &KeyBound::Unbounded))
            } else {
                Some(b.descending())
            },
            None => None,
        }
    }

    proof fn same_maps(&self, other: &SecondaryIndex)
        requires
            self.hashes == other.hashes,
            self.btrees == other.btrees,
        ensures
            forall|q: IndexKind, l: Seq<char>, p: Seq<char>| #[trigger]
                self.of_kind(q, l, p) == other.of_kind(q, l, p),
    {
    }

    /// Puts a map in place of the one of its kind.
    fn put(&mut self, kind: IndexKind, label: &str, prop: &str, keys: KeyMap)
        requires
            old(self).wf(),
            keys.wf(),
        ensures
            final(self).wf(),
            final(self).specs == old(self).specs,
            forall|q: IndexKind, l: Seq<char>, p: Seq<char>| #[trigger]
                final(self).of_kind(q, l, p) == (if q == kind && l == label@ && p == prop@ {
                    Some(keys)
                } else {
                    old(self).of_kind(q, l, p)
                }),
    {
        match kind {
            IndexKind::Hash => {
                put_bucket(&mut self.hashes, label, prop, keys);
            },
            IndexKind::BTree => {
                put_bucket(&mut self.btrees, label, prop, keys);
            },
        }
    }

    /// Makes an index on a property of the nodes with a label. One of each kind
    /// can be there; a second of the same kind is refused.
    pub fn build_declared<G: GraphAccess>(
        &mut self,
        store: &G,
        name: String,
        label: &str,
        prop: &str,
        kind: IndexKind,
    ) -> (r: Result<IndexSpec, String>)
        requires
            old(self).wf(),
            store.sound(),
        ensures
            final(self).wf(),
            match r {
                Ok(spec) => {
                    &&& old(self).of_kind(kind, label@, prop@) is None
                    &&& final(self).of_kind(kind, label@, prop@) is Some
                    &&& final(self).of_kind(kind, label@, prop@)->Some_0.holds(
                        label_items(store.model(), store.model().node_ids, label@, prop@),
                    )
                    &&& forall|q: IndexKind, l: Seq<char>, p: Seq<char>|
                        !(q == kind && l == label@ && p == prop@) ==> #[trigger] final(self).of_kind(q, l, p) == old(self).of_kind(q, l, p)
                    &&& spec@ == (SpecView {
                        name: name@,
                        label: label@,
                        prop: prop@,
                        kind,
                        auto: false,
                        entries: final(self).of_kind(kind, label@, prop@)->Some_0@.len() as usize,
                    })
                    &&& spec_views(final(self).specs@) == spec_views(old(self).specs@).push(spec@)
                },
                Err(text) => {
                    &&& old(self).of_kind(kind, label@, prop@) is Some
                    &&& text@ == exists_text(label@, prop@, kind)
                    &&& *final(self) == *old(self)
                },
            },
    {
        let taken = match kind {
            IndexKind::Hash => find_bucket(&self.hashes, label, prop).is_some(),
            IndexKind::BTree => find_bucket(&self.btrees, label, prop).is_some(),
        };
        if taken {
            let mut text = match kind {
                IndexKind::Hash => copy_text("a Hash index already exists on (:"),
                IndexKind::BTree => copy_text("a BTree index already exists on (:"),
            };
            text.append(label);
            text.append(" {");
            text.append(prop);
            text.append("}); drop it first");
            return Err(text);
        }
        let ghost m = store.model();
        proof {
            store.sound_model();
        }
        let ids = store.nodes();
        let mut keys = KeyMap::new();
        let mut i: usize = 0;
        while i < ids.len()
            invariant
                i <= ids.len(),
                store.sound(),
                m == store.model(),
                m.well_formed(),
                ids@ == m.node_ids,
                keys.holds(label_items(m, ids@.take(i as int), label@, prop@)),
            decreases ids.len() - i,
        {
            let id = ids[i];
            proof {
                assert(ids@.take(i + 1).drop_last() =~= ids@.take(i as int));
                assert(m.nodes.contains_key(m.node_ids[i as int]));
            }
            let labels = MemoryGraphStore::label_strings(&store.node_labels(id));
            if super::overlay::has_label(&labels, label) {
                let props = store.node_props(id);
                proof {
                    let n = m.nodes[id];
                    assert(n.props.contains_key(prop@) == props@.contains_key(prop@));
                }
                keys.file(
                    key_in(&props, prop),
                    id,
                    Ghost(label_items(m, ids@.take(i as int), label@, prop@)),
                );
            }
            i = i + 1;
        }
        assert(ids@.take(i as int) =~= ids@);
        let entries = keys.entries.len();
        let spec = IndexSpec {
            name,
            label: copy_text(label),
            prop: copy_text(prop),
            kind,
            auto: false,
            entries,
        };
        let ghost before = spec_views(self.specs@);
        self.put(kind, label, prop, keys);
        let ghost mid = *self;
        self.specs.push(spec.copy());
        assert(spec_views(self.specs@) =~= before.push(spec@));
        proof {
            self.same_maps(&mid);
        }
        Ok(spec)
    }

    /// Puts a map in that was made elsewhere.
    pub fn insert_prebuilt(
        &mut self,
        label: &str,
        prop: &str,
        kind: IndexKind,
        auto: bool,
        entries: usize,
        keys: Option<KeyMap>,
    )
        requires
            old(self).wf(),
            keys is Some ==> keys->Some_0.wf(),
        ensures
            final(self).wf(),
            forall|q: IndexKind, l: Seq<char>, p: Seq<char>| #[trigger]
                final(self).of_kind(q, l, p) == (if q == kind && l == label@ && p == prop@ && keys
                    is Some {
                    keys
                } else {
                    old(self).of_kind(q, l, p)
                }),
            spec_views(final(self).specs@) == spec_views(old(self).specs@).push(
                (SpecView {
                    name: if auto {
                        auto_name(label@, prop@, kind)
                    } else {
                        label@ + "_"@ + prop@ + "_declared"@
                    },
                    label: label@,
                    prop: prop@,
                    kind,
                    auto,
                    entries,
                }),
            ),
    {
        let name = if auto {
            match kind {
                IndexKind::Hash => joined_name(label, prop, "_auto_hash"),
                IndexKind::BTree => joined_name(label, prop, "_auto_btree"),
            }
        } else {
            joined_name(label, prop, "_declared")
        };
        match keys {
            Some(k) => {
                self.put(kind, label, prop, k);
            },
            None => {},
        }
        let ghost before = spec_views(self.specs@);
        let spec = IndexSpec {
            name,
            label: copy_text(label),
            prop: copy_text(prop),
            kind,
            auto,
            entries,
        };
        let ghost v = spec@;
        let ghost mid = *self;
        self.specs.push(spec);
        assert(spec_views(self.specs@) =~= before.push(v));
        proof {
            self.same_maps(&mid);
        }
    }

    /// Drops the first index with a name. Whether there was one.
    pub fn drop_named(&mut self, name: &str) -> (r: bool)
        requires
            old(self).wf(),
        ensures
            final(self).wf(),
            ({
                let i = first_named(spec_views(old(self).specs@), name@);
                if i >= 0 {
                    let s = spec_views(old(self).specs@)[i];
                    &&& r
                    &&& spec_views(final(self).specs@) == spec_views(old(self).specs@).remove(i)
                    &&& forall|q: IndexKind, l: Seq<char>, p: Seq<char>| #[trigger]
                        final(self).of_kind(q, l, p) == (if q == s.kind && l == s.label && p
                            == s.prop {
                            None
                        } else {
                            old(self).of_kind(q, l, p)
                        })
                } else {
                    !r && *final(self) == *old(self)
                }
            }),
    {
        let ghost views = spec_views(self.specs@);
        let mut i: usize = 0;
        while i < self.specs.len()
            invariant
                i <= self.specs.len(),
                views == spec_views(self.specs@),
                *self == *old(self),
                forall|j: int| 0 <= j < i ==> (#[trigger] views[j]).name != name@,
            ensures
                i <= self.specs.len(),
                forall|j: int| 0 <= j < i ==> (#[trigger] views[j]).name != name@,
                i < self.specs.len() ==> views[i as int].name == name@,
                views == spec_views(self.specs@),
                *self == *old(self),
            decreases self.specs.len() - i,
        {
            if same_text(self.specs[i].name.as_str(), name) {
                break;
            }
            i = i + 1;
        }
        if i == self.specs.len() {
            proof {
                first_named_none(views, name@);
            }
            return false;
        }
        proof {
            first_named_found(views, name@, i as int);
        }
        let spec = self.specs.remove(i);
        assert(spec_views(self.specs@) =~= views.remove(i as int));
        match spec.kind {
            IndexKind::Hash => {
                drop_bucket(&mut self.hashes, spec.label.as_str(), spec.prop.as_str());
            },
            IndexKind::BTree => {
                drop_bucket(&mut self.btrees, spec.label.as_str(), spec.prop.as_str());
            },
        }
        true
    }
}

/// The items of a list with one item some times more.
spec fn repeated(items: Seq<(Id, Option<KeyView>)>, item: (Id, Option<KeyView>), n: nat) -> Seq<
    (Id, Option<KeyView>),
> {
    items + Seq::new(n, |i: int| item)
}

proof fn items_label(m: GraphModel, ids: Seq<Id>, label: Seq<char>, prop: Seq<char>)
    requires
        auto_items(m, ids, label, prop).len() > 0,
    ensures
        exists|i: int|
            0 <= i < ids.len() && m.nodes[#[trigger] ids[i]].labels.required().contains(label),
    decreases ids.len(),
{
    let rest = ids.drop_last();
    let required = m.nodes[ids.last()].labels.required();
    if times(required, label) > 0 {
        times_found(required, label);
        assert(m.nodes[ids[ids.len() - 1]].labels.required().contains(label));
    } else {
        items_label(m, rest, label, prop);
        let i = choose|i: int|
            0 <= i < rest.len() && m.nodes[#[trigger] rest[i]].labels.required().contains(label);
        assert(ids[i] == rest[i]);
    }
}

proof fn times_found(list: Seq<Seq<char>>, x: Seq<char>)
    requires
        times(list, x) > 0,
    ensures
        list.contains(x),
    decreases list.len(),
{
    if list.last() == x {
        assert(list[list.len() - 1] == x);
    } else {
        times_found(list.drop_last(), x);
        let i = choose|i: int| 0 <= i < list.drop_last().len() && list.drop_last()[i] == x;
        assert(list[i] == x);
    }
}

proof fn items_prop(m: GraphModel, ids: Seq<Id>, label: Seq<char>, prop: Seq<char>)
    requires
        auto_items(m, ids, label, prop).len() > 0,
        forall|i: int|
            0 <= i < auto_items(m, ids, label, prop).len() ==> (#[trigger] auto_items(
                m,
                ids,
                label,
                prop,
            )[i]).1 is Some,
    ensures
        exists|i: int| 0 <= i < ids.len() && m.nodes[#[trigger] ids[i]].props.contains_key(prop),
    decreases ids.len(),
{
    let rest = ids.drop_last();
    let all = auto_items(m, ids, label, prop);
    let n = m.nodes[ids.last()];
    let before = auto_items(m, rest, label, prop);
    if times(n.labels.required(), label) > 0 {
        assert(all[all.len() - 1].1 is Some);
        assert(m.nodes[ids[ids.len() - 1]].props.contains_key(prop));
    } else {
        assert(all =~= before);
        items_prop(m, rest, label, prop);
        let i = choose|i: int|
            0 <= i < rest.len() && m.nodes[#[trigger] rest[i]].props.contains_key(prop);
        assert(ids[i] == rest[i]);
    }
}

/// How often a label is in a list.
fn count_label(labels: &Vec<String>, label: &str) -> (r: usize)
    ensures
        r == times(crate::text::texts(labels@), label@),
{
    let ghost list = crate::text::texts(labels@);
    let mut n: usize = 0;
    let mut i: usize = 0;
    while i < labels.len()
        invariant
            i <= labels.len(),
            n <= i,
            list == crate::text::texts(labels@),
            n == times(list.take(i as int), label@),
        decreases labels.len() - i,
    {
        assert(list.take(i + 1).drop_last() =~= list.take(i as int));
        if same_text(labels[i].as_str(), label) {
            n = n + 1;
        }
        i = i + 1;
    }
    assert(list.take(i as int) =~= list);
    n
}

/// Whether every key has one id.
fn all_single(keys: &KeyMap) -> (r: bool)
    requires
        keys.wf(),
    ensures
        r <==> forall|k: KeyView| (#[trigger] super::key_map::under(keys@, k)).len() <= 1,
{
    let mut i: usize = 0;
    while i < keys.entries.len()
        invariant
            i <= keys.entries.len(),
            keys.wf(),
            forall|j: int| 0 <= j < i ==> (#[trigger] keys@[j]).1.len() <= 1,
        decreases keys.entries.len() - i,
    {
        assert(keys@[i as int].1 == keys.entries@[i as int].1@);
        if keys.entries[i].1.len() > 1 {
            proof {
                super::key_map::under_entry(keys@, i as int);
                assert(super::key_map::under(keys@, keys@[i as int].0).len() > 1);
            }
            return false;
        }
        i = i + 1;
    }
    proof {
        assert forall|k: KeyView| (#[trigger] super::key_map::under(keys@, k)).len() <= 1 by {
            if exists|j: int| 0 <= j < keys@.len() && (#[trigger] keys@[j]).0 == k {
                let j = choose|j: int| 0 <= j < keys@.len() && (#[trigger] keys@[j]).0 == k;
                super::key_map::under_entry(keys@, j);
                assert(keys@[j].1.len() <= 1);
            } else {
                super::key_map::under_none(keys@, k);
            }
        }
    }
    true
}

/// Files one id some times.
fn file_times(keys: &mut KeyMap, k: Option<IndexKey>, id: Id, n: usize, Ghost(items): Ghost<
    Seq<(Id, Option<KeyView>)>,
>)
    requires
        old(keys).holds(items),
        k is Some ==> k->Some_0@.ok(),
    ensures
        final(keys).holds(
            items + Seq::new(n as nat, |i: int| (id, super::key_map::key_view(k))),
        ),
{
    let ghost item = (id, super::key_map::key_view(k));
    let mut i: usize = 0;
    assert(repeated(items, item, 0) =~= items);
    while i < n
        invariant
            i <= n,
            item == (id, super::key_map::key_view(k)),
            k is Some ==> k->Some_0@.ok(),
            keys.holds(repeated(items, item, i as nat)),
        decreases n - i,
    {
        let key = match &k {
            Some(x) => Some(x.copy()),
            None => None,
        };
        keys.file(key, id, Ghost(repeated(items, item, i as nat)));
        assert(repeated(items, item, i as nat).push(item) =~= repeated(items, item, (i + 1) as nat));
        i = i + 1;
    }
}

/// The map of an inferred index, where there is to be one.
fn auto_keys<G: GraphAccess>(store: &G, label: &str, prop: &str) -> (r: Option<KeyMap>)
    requires
        store.sound(),
    ensures
        match r {
            Some(k) => auto_pair(store.model(), label@, prop@) && k.holds(
                auto_items(store.model(), store.model().node_ids, label@, prop@),
            ),
            None => !auto_pair(store.model(), label@, prop@),
        },
{
    let ghost m = store.model();
    proof {
        store.sound_model();
    }
    let ids = store.nodes();
    let mut keys = KeyMap::new();
    let mut any = false;
    let mut every = true;
    let mut i: usize = 0;
    while i < ids.len()
        invariant
            i <= ids.len(),
            store.sound(),
            m == store.model(),
            m.well_formed(),
            ids@ == m.node_ids,
            keys.holds(auto_items(m, ids@.take(i as int), label@, prop@)),
            any == (auto_items(m, ids@.take(i as int), label@, prop@).len() > 0),
            every == forall|j: int|
                0 <= j < auto_items(m, ids@.take(i as int), label@, prop@).len() ==> (
                #[trigger] auto_items(m, ids@.take(i as int), label@, prop@)[j]).1 is Some,
        decreases ids.len() - i,
    {
        let id = ids[i];
        let ghost sofar = auto_items(m, ids@.take(i as int), label@, prop@);
        let ghost next = auto_items(m, ids@.take(i + 1), label@, prop@);
        proof {
            assert(ids@.take(i + 1).drop_last() =~= ids@.take(i as int));
            assert(m.nodes.contains_key(m.node_ids[i as int]));
        }
        let labels = MemoryGraphStore::label_strings(&store.node_labels(id));
        let n = count_label(&labels, label);
        let props = store.node_props(id);
        assert(m.nodes[id].props.contains_key(prop@) == props@.contains_key(prop@));
        let k = key_in(&props, prop);
        let keyed = k.is_some();
        let ghost item = (id, super::key_map::key_view(k));
        file_times(&mut keys, k, id, n, Ghost(sofar));
        proof {
            assert(next =~= sofar + Seq::new(n as nat, |j: int| item));
            assert forall|j: int| 0 <= j < sofar.len() implies #[trigger] next[j] == sofar[j] by {}
            assert forall|j: int| sofar.len() <= j < next.len() implies #[trigger] next[j]
                == item by {}
            if n > 0 {
                assert(next[sofar.len() as int] == item);
            }
            if !every {
                let j = choose|j: int| 0 <= j < sofar.len() && (#[trigger] sofar[j]).1 is None;
                assert(next[j].1 is None);
            }
        }
        if n > 0 {
            any = true;
            if !keyed {
                every = false;
            }
        }
        i = i + 1;
    }
    assert(ids@.take(i as int) =~= ids@);
    let single = all_single(&keys);
    proof {
        let items = auto_items(m, m.node_ids, label@, prop@);
        if single {
            assert forall|k: KeyView| (#[trigger] super::key_map::filed(items, k)).len() <= 1 by {
                assert(super::key_map::under(keys@, k) == super::key_map::filed(items, k));
            }
        } else {
            let k = choose|k: KeyView| (#[trigger] super::key_map::under(keys@, k)).len() > 1;
            assert(super::key_map::filed(items, k).len() > 1);
        }
    }
    if any && every && single {
        Some(keys)
    } else {
        None
    }
}

/// The labels and the names of properties of a graph.
fn collect_names<G: GraphAccess>(store: &G) -> (r: (NameSet, NameSet))
    requires
        store.sound(),
    ensures
        forall|i: int, x: Seq<char>|
            0 <= i < store.model().node_ids.len()
                && #[trigger] store.model().nodes[store.model().node_ids[i]].labels.required().contains(
                x,
            ) ==> r.0@.contains(x),
        forall|i: int, x: Seq<char>|
            0 <= i < store.model().node_ids.len()
                && #[trigger] store.model().nodes[store.model().node_ids[i]].props.contains_key(x)
                ==> r.1@.contains(x),
{
    let ghost m = store.model();
    proof {
        store.sound_model();
    }
    let ids = store.nodes();
    let mut labels = NameSet::new();
    let mut names = NameSet::new();
    let mut i: usize = 0;
    while i < ids.len()
        invariant
            i <= ids.len(),
            store.sound(),
            m == store.model(),
            m.well_formed(),
            ids@ == m.node_ids,
            forall|j: int, x: Seq<char>|
                0 <= j < i && #[trigger] m.nodes[m.node_ids[j]].labels.required().contains(x)
                    ==> labels@.contains(x),
            forall|j: int, x: Seq<char>|
                0 <= j < i && #[trigger] m.nodes[m.node_ids[j]].props.contains_key(x)
                    ==> names@.contains(x),
        decreases ids.len() - i,
    {
        let id = ids[i];
        assert(m.nodes.contains_key(m.node_ids[i as int]));
        let list = MemoryGraphStore::label_strings(&store.node_labels(id));
        let ghost was = labels@;
        add_names(&mut labels, &list);
        let props = store.node_props(id);
        let ghost had = names@;
        add_keys(&mut names, &props);
        proof {
            let n = m.nodes[id];
            assert forall|j: int, x: Seq<char>|
                0 <= j < i + 1
                    && #[trigger] m.nodes[m.node_ids[j]].labels.required().contains(
                    x,
                ) implies labels@.contains(x) by {
                if j < i {
                    assert(was.contains(x));
                }
            }
            assert forall|j: int, x: Seq<char>|
                0 <= j < i + 1 && #[trigger] m.nodes[m.node_ids[j]].props.contains_key(
                    x,
                ) implies names@.contains(x) by {
                if j < i {
                    assert(had.contains(x));
                } else {
                    assert(props@.contains_key(x));
                }
            }
        }
        i = i + 1;
    }
    (labels, names)
}

fn add_names(set: &mut NameSet, list: &Vec<String>)
    ensures
        forall|x: Seq<char>| #[trigger]
            final(set)@.contains(x) <==> old(set)@.contains(x) || crate::text::texts(
                list@,
            ).contains(x),
{
    let ghost texts = crate::text::texts(list@);
    let mut i: usize = 0;
    while i < list.len()
        invariant
            i <= list.len(),
            texts == crate::text::texts(list@),
            forall|x: Seq<char>| #[trigger]
                set@.contains(x) <==> old(set)@.contains(x) || texts.take(i as int).contains(x),
        decreases list.len() - i,
    {
        let ghost was = set@;
        set.insert(list[i].clone());
        proof {
            assert forall|x: Seq<char>| #[trigger]
                set@.contains(x) <==> old(set)@.contains(x) || texts.take(i + 1).contains(x) by {
                assert(texts.take(i + 1) =~= texts.take(i as int).push(texts[i as int]));
                assert(was.contains(x) <==> old(set)@.contains(x) || texts.take(
                    i as int,
                ).contains(x));
                pushed_text(texts.take(i as int), texts[i as int], x);
            }
        }
        i = i + 1;
    }
    assert(texts.take(i as int) =~= texts);
}

proof fn pushed_text(s: Seq<Seq<char>>, y: Seq<char>, x: Seq<char>)
    ensures
        s.push(y).contains(x) <==> s.contains(x) || x == y,
{
    if s.contains(x) {
        let i = choose|i: int| 0 <= i < s.len() && s[i] == x;
        assert(s.push(y)[i] == x);
    }
    assert(s.push(y)[s.len() as int] == y);
    if s.push(y).contains(x) && x != y {
        let i = choose|i: int| 0 <= i < s.push(y).len() && s.push(y)[i] == x;
        assert(s[i] == x);
    }
}

/// Adds the names of properties.
pub(crate) fn add_keys(set: &mut NameSet, props: &Props)
    ensures
        forall|x: Seq<char>| #[trigger]
            final(set)@.contains(x) <==> old(set)@.contains(x) || props@.contains_key(x),
{
    let n = props.len();
    let ghost keys = props.keys();
    let mut i: usize = 0;
    while i < n
        invariant
            i <= n,
            keys == props.keys(),
            n == keys.len(),
            keys.to_set() == props@.dom(),
            forall|x: Seq<char>| #[trigger]
                set@.contains(x) <==> old(set)@.contains(x) || keys.take(i as int).contains(x),
        decreases n - i,
    {
        let ghost was = set@;
        set.insert(props.key_at(i).clone());
        proof {
            assert forall|x: Seq<char>| #[trigger]
                set@.contains(x) <==> old(set)@.contains(x) || keys.take(i + 1).contains(x) by {
                assert(keys.take(i + 1) =~= keys.take(i as int).push(keys[i as int]));
                assert(was.contains(x) <==> old(set)@.contains(x) || keys.take(
                    i as int,
                ).contains(x));
                pushed_text(keys.take(i as int), keys[i as int], x);
            }
        }
        i = i + 1;
    }
    proof {
        assert(keys.take(i as int) =~= keys);
        assert forall|x: Seq<char>| #[trigger]
            set@.contains(x) <==> old(set)@.contains(x) || props@.contains_key(x) by {
            assert(keys.contains(x) <==> keys.to_set().contains(x));
        }
    }
}

impl SecondaryIndex {
    /// What inferring indexes has done for a label and a property.
    pub open spec fn inferred(
        &self,
        was: &SecondaryIndex,
        m: GraphModel,
        label: Seq<char>,
        prop: Seq<char>,
    ) -> bool {
        if auto_pair(m, label, prop) {
            let items = auto_items(m, m.node_ids, label, prop);
            &&& self.of_kind(IndexKind::Hash, label, prop) is Some
            &&& self.of_kind(IndexKind::Hash, label, prop)->Some_0.holds(items)
            &&& self.of_kind(IndexKind::BTree, label, prop) is Some
            &&& self.of_kind(IndexKind::BTree, label, prop)->Some_0.holds(items)
            &&& listed(
                spec_views(self.specs@),
                was.specs@.len() as int,
                label,
                prop,
                IndexKind::Hash,
            )
            &&& listed(
                spec_views(self.specs@),
                was.specs@.len() as int,
                label,
                prop,
                IndexKind::BTree,
            )
        } else {
            self.untouched(was, label, prop)
        }
    }

    /// The maps of a label and a property are as they were.
    pub open spec fn untouched(&self, was: &SecondaryIndex, label: Seq<char>, prop: Seq<char>) -> bool {
        &&& self.of_kind(IndexKind::Hash, label, prop) == was.of_kind(IndexKind::Hash, label, prop)
        &&& self.of_kind(IndexKind::BTree, label, prop) == was.of_kind(
            IndexKind::BTree,
            label,
            prop,
        )
    }

    /// The specifications are those from before and others of inferred indexes.
    pub open spec fn specs_grown(&self, was: &SecondaryIndex, m: GraphModel) -> bool {
        let now = spec_views(self.specs@);
        let old_specs = spec_views(was.specs@);
        &&& old_specs.len() <= now.len()
        &&& now.take(old_specs.len() as int) == old_specs
        &&& auto_only(now, old_specs.len() as int, m)
    }

    /// Adds the two maps of an inferred index.
    fn add_auto(&mut self, label: &str, prop: &str, keys: KeyMap, Ghost(was): Ghost<
        SecondaryIndex,
    >, Ghost(m): Ghost<GraphModel>)
        requires
            old(self).wf(),
            auto_pair(m, label@, prop@),
            keys.holds(auto_items(m, m.node_ids, label@, prop@)),
            old(self).specs_grown(&was, m),
            forall|i: int|
                was.specs@.len() <= i < old(self).specs@.len() ==> !((#[trigger] spec_views(
                    old(self).specs@,
                )[i]).label == label@ && spec_views(old(self).specs@)[i].prop == prop@),
        ensures
            final(self).specs@.len() == old(self).specs@.len() + 2,
            forall|i: int|
                0 <= i < final(self).specs@.len() ==> (#[trigger] spec_views(
                    final(self).specs@,
                )[i]) == spec_views(old(self).specs@)[i] || (i >= old(self).specs@.len()
                    && spec_views(final(self).specs@)[i].label == label@ && spec_views(
                    final(self).specs@,
                )[i].prop == prop@),
            final(self).wf(),
            final(self).inferred(&was, m, label@, prop@),
            final(self).specs_grown(&was, m),
            forall|l: Seq<char>, p: Seq<char>|
                !(l == label@ && p == prop@) && #[trigger] old(self).inferred(&was, m, l, p)
                    ==> final(self).inferred(&was, m, l, p),
            forall|l: Seq<char>, p: Seq<char>|
                !(l == label@ && p == prop@) && #[trigger] old(self).untouched(&was, l, p)
                    ==> final(self).untouched(&was, l, p),
    {
        let entries = keys.entries.len();
        let ghost s0 = *self;
        let other = keys.copy();
        let ghost items = auto_items(m, m.node_ids, label@, prop@);
        assert(other.holds(items));
        self.insert_prebuilt(label, prop, IndexKind::Hash, true, entries, Some(keys));
        let ghost s1 = *self;
        self.insert_prebuilt(label, prop, IndexKind::BTree, true, entries, Some(other));
        proof {
            let v0 = spec_views(s0.specs@);
            let v1 = spec_views(s1.specs@);
            let v2 = spec_views(self.specs@);
            let n = spec_views(was.specs@).len() as int;
            let h = v1[v0.len() as int];
            let t = v2[v1.len() as int];
            entries_counted(keys, items);
            assert(keys@.len() == entries);
            assert(v1 =~= v0.push(h));
            assert(v2 =~= v1.push(t));
            assert(is_spec_of(v1[v0.len() as int], label@, prop@, IndexKind::Hash));
            assert(listed(v1, n, label@, prop@, IndexKind::Hash));
            listed_push(v1, t, n, label@, prop@, IndexKind::Hash);
            assert(is_spec_of(v2[v1.len() as int], label@, prop@, IndexKind::BTree));
            assert(listed(v2, n, label@, prop@, IndexKind::BTree));
            assert(v2.take(n) =~= v0.take(n));
            assert forall|i: int| n <= i < v2.len() implies auto_spec(m, #[trigger] v2[i]) by {
                if i < v0.len() {
                    assert(v2[i] == v0[i]);
                } else if i == v0.len() {
                    assert(v2[i] == h);
                }
            }
            assert forall|i: int, j: int| n <= i < j < v2.len() implies !is_spec_of(
                #[trigger] v2[j],
                (#[trigger] v2[i]).label,
                v2[i].prop,
                v2[i].kind,
            ) by {
                if j < v0.len() {
                    assert(v2[i] == v0[i] && v2[j] == v0[j]);
                } else if i < v0.len() {
                    assert(v2[i] == v0[i]);
                    assert(!(v0[i].label == label@ && v0[i].prop == prop@));
                }
            }
            assert forall|l: Seq<char>, p: Seq<char>|
                !(l == label@ && p == prop@) && #[trigger] s0.inferred(
                    &was,
                    m,
                    l,
                    p,
                ) implies self.inferred(&was, m, l, p) by {
                assert(s1.of_kind(IndexKind::Hash, l, p) == s0.of_kind(IndexKind::Hash, l, p));
                assert(s1.of_kind(IndexKind::BTree, l, p) == s0.of_kind(IndexKind::BTree, l, p));
                if auto_pair(m, l, p) {
                    listed_push(v0, h, n, l, p, IndexKind::Hash);
                    listed_push(v0, h, n, l, p, IndexKind::BTree);
                    listed_push(v1, t, n, l, p, IndexKind::Hash);
                    listed_push(v1, t, n, l, p, IndexKind::BTree);
                }
            }
            assert forall|l: Seq<char>, p: Seq<char>|
                !(l == label@ && p == prop@) && #[trigger] s0.untouched(
                    &was,
                    l,
                    p,
                ) implies self.untouched(&was, l, p) by {
                assert(s1.of_kind(IndexKind::Hash, l, p) == s0.of_kind(IndexKind::Hash, l, p));
                assert(s1.of_kind(IndexKind::BTree, l, p) == s0.of_kind(IndexKind::BTree, l, p));
            }
            assert(s1.of_kind(IndexKind::Hash, label@, prop@) is Some);
        }
    }

    /// Infers indexes: for each label and property of which every node with the
    /// label has a value and no two have the same, one index of each kind.
    pub fn auto_build<G: GraphAccess>(&mut self, store: &G)
        requires
            old(self).wf(),
            store.sound(),
        ensures
            final(self).wf(),
            spec_views(final(self).specs@).take(old(self).specs@.len() as int) == spec_views(
                old(self).specs@,
            ),
            auto_listed(
                spec_views(final(self).specs@),
                old(self).specs@.len() as int,
                store.model(),
            ),
            forall|l: Seq<char>, p: Seq<char>| #[trigger]
                final(self).inferred(old(self), store.model(), l, p),
    {
        let ghost was = *self;
        let ghost m = store.model();
        let (labels, names) = collect_names(store);
        let nl = labels.len();
        let np = names.len();
        let ghost ls = labels.names();
        let ghost ps = names.names();
        proof {
            let v = spec_views(was.specs@);
            assert(v.take(v.len() as int) =~= v);
        }
        let mut i: usize = 0;
        while i < nl
            invariant
                i <= nl,
                nl == ls.len(),
                np == ps.len(),
                ls == labels.names(),
                ps == names.names(),
                ls.no_duplicates(),
                ps.no_duplicates(),
                store.sound(),
                m == store.model(),
                self.wf(),
                self.specs_grown(&was, m),
                forall|k: int|
                    was.specs@.len() <= k < self.specs@.len() ==> ls.take(i as int).contains(
                        (#[trigger] spec_views(self.specs@)[k]).label,
                    ),
                forall|l: Seq<char>, p: Seq<char>|
                    ls.take(i as int).contains(l) && ps.contains(p) ==> #[trigger] self.inferred(
                        &was,
                        m,
                        l,
                        p,
                    ),
                forall|l: Seq<char>, p: Seq<char>|
                    !(ls.take(i as int).contains(l) && ps.contains(p))
                        ==> #[trigger] self.untouched(&was, l, p),
            decreases nl - i,
        {
            let label = labels.at(i);
            let ghost li = ls[i as int];
            let mut j: usize = 0;
            proof {
                assert(!ls.take(i as int).contains(li)) by {
                    if ls.take(i as int).contains(li) {
                        let k = choose|k: int| 0 <= k < i && ls.take(i as int)[k] == li;
                        assert(ls[k] == li);
                    }
                }
            }
            while j < np
                invariant
                    i < nl,
                    j <= np,
                    nl == ls.len(),
                    np == ps.len(),
                    ls == labels.names(),
                    ps == names.names(),
                    ls.no_duplicates(),
                    ps.no_duplicates(),
                    store.sound(),
                    m == store.model(),
                    self.wf(),
                    self.specs_grown(&was, m),
                    forall|k: int|
                        was.specs@.len() <= k < self.specs@.len() ==> {
                            let s = #[trigger] spec_views(self.specs@)[k];
                            ls.take(i as int).contains(s.label) || (s.label == li && ps.take(
                                j as int,
                            ).contains(s.prop))
                        },
                    label@ == li,
                    li == ls[i as int],
                    !ls.take(i as int).contains(li),
                    forall|l: Seq<char>, p: Seq<char>|
                        (ls.take(i as int).contains(l) && ps.contains(p)) || (l == li && ps.take(
                            j as int,
                        ).contains(p)) ==> #[trigger] self.inferred(&was, m, l, p),
                    forall|l: Seq<char>, p: Seq<char>|
                        !(ls.take(i as int).contains(l) && ps.contains(p)) && !(l == li && ps.take(
                            j as int,
                        ).contains(p)) ==> #[trigger] self.untouched(&was, l, p),
                decreases np - j,
            {
                let prop = names.at(j);
                let ghost pj = ps[j as int];
                let ghost mid = *self;
                proof {
                    assert(ps.take(j + 1) =~= ps.take(j as int).push(pj));
                    assert(!ps.take(j as int).contains(pj)) by {
                        if ps.take(j as int).contains(pj) {
                            let k = choose|k: int| 0 <= k < j && ps.take(j as int)[k] == pj;
                            assert(ps[k] == pj);
                        }
                    }
                    assert(mid.untouched(&was, li, pj));
                    assert forall|k: int|
                        was.specs@.len() <= k < self.specs@.len() implies !((#[trigger] spec_views(
                        self.specs@,
                    )[k]).label == li && spec_views(self.specs@)[k].prop == pj) by {
                        let s = spec_views(self.specs@)[k];
                        assert(ls.take(i as int).contains(s.label) || (s.label == li && ps.take(
                            j as int,
                        ).contains(s.prop)));
                    }
                }
                match auto_keys(store, label.as_str(), prop.as_str()) {
                    Some(keys) => {
                        self.add_auto(label.as_str(), prop.as_str(), keys, Ghost(was), Ghost(m));
                    },
                    None => {
                        assert(self.inferred(&was, m, li, pj));
                    },
                }
                proof {
                    assert forall|k: int| was.specs@.len() <= k < self.specs@.len() implies ({
                        let s = #[trigger] spec_views(self.specs@)[k];
                        ls.take(i as int).contains(s.label) || (s.label == li && ps.take(
                            j + 1,
                        ).contains(s.prop))
                    }) by {
                        let s = spec_views(self.specs@)[k];
                        pushed_text(ps.take(j as int), pj, s.prop);
                        if k < mid.specs@.len() {
                            let o = spec_views(mid.specs@)[k];
                            assert(s == o);
                            assert(ls.take(i as int).contains(o.label) || (o.label == li && ps.take(
                                j as int,
                            ).contains(o.prop)));
                        }
                    }
                    assert forall|l: Seq<char>, p: Seq<char>|
                        (ls.take(i as int).contains(l) && ps.contains(p)) || (l == li && ps.take(
                            j + 1,
                        ).contains(p)) implies #[trigger] self.inferred(&was, m, l, p) by {
                        pushed_text(ps.take(j as int), pj, p);
                        if !(l == li && p == pj) {
                            assert(mid.inferred(&was, m, l, p));
                        }
                    }
                    assert forall|l: Seq<char>, p: Seq<char>|
                        !(ls.take(i as int).contains(l) && ps.contains(p)) && !(l == li && ps.take(
                            j + 1,
                        ).contains(p)) implies #[trigger] self.untouched(&was, l, p) by {
                        pushed_text(ps.take(j as int), pj, p);
                        assert(mid.untouched(&was, l, p));
                    }
                }
                j = j + 1;
            }
            proof {
                assert(ps.take(np as int) =~= ps);
                assert(ls.take(i + 1) =~= ls.take(i as int).push(li));
                assert forall|k: int| was.specs@.len() <= k < self.specs@.len() implies ls.take(
                    i + 1,
                ).contains((#[trigger] spec_views(self.specs@)[k]).label) by {
                    let s = spec_views(self.specs@)[k];
                    pushed_text(ls.take(i as int), li, s.label);
                    assert(ls.take(i as int).contains(s.label) || s.label == li);
                }
                assert forall|l: Seq<char>, p: Seq<char>|
                    ls.take(i + 1).contains(l) && ps.contains(p) implies #[trigger] self.inferred(
                    &was,
                    m,
                    l,
                    p,
                ) by {
                    pushed_text(ls.take(i as int), li, l);
                }
                assert forall|l: Seq<char>, p: Seq<char>|
                    !(ls.take(i + 1).contains(l) && ps.contains(p)) implies #[trigger] self.untouched(
                    &was,
                    l,
                    p,
                ) by {
                    pushed_text(ls.take(i as int), li, l);
                }
            }
            i = i + 1;
        }
        proof {
            assert(ls.take(nl as int) =~= ls);
            assert forall|l: Seq<char>, p: Seq<char>| #[trigger]
                self.inferred(&was, m, l, p) by {
                if !(ls.contains(l) && ps.contains(p)) {
                    assert(self.untouched(&was, l, p));
                    if auto_pair(m, l, p) {
                        items_label(m, m.node_ids, l, p);
                        items_prop(m, m.node_ids, l, p);
                        let a = choose|a: int|
                            0 <= a < m.node_ids.len()
                                && m.nodes[#[trigger] m.node_ids[a]].labels.required().contains(l);
                        let b = choose|b: int|
                            0 <= b < m.node_ids.len()
                                && m.nodes[#[trigger] m.node_ids[b]].props.contains_key(p);
                        assert(m.nodes[m.node_ids[a]].labels.required().contains(l));
                        assert(m.nodes[m.node_ids[b]].props.contains_key(p));
                        assert(labels@.contains(l));
                        assert(names@.contains(p));
                        assert(ls.to_set().contains(l));
                        assert(ps.to_set().contains(p));
                    }
                }
            }
            let v = spec_views(self.specs@);
            assert forall|l: Seq<char>, p: Seq<char>, kind: IndexKind|
                auto_pair(m, l, p) implies #[trigger] listed(
                v,
                was.specs@.len() as int,
                l,
                p,
                kind,
            ) by {
                assert(self.inferred(&was, m, l, p));
                match kind {
                    IndexKind::Hash => {},
                    IndexKind::BTree => {},
                }
            }
        }
    }
}

proof fn label_items_members(
    m: GraphModel,
    ids: Seq<Id>,
    label: Seq<char>,
    prop: Seq<char>,
    item: (Id, Option<KeyView>),
)
    ensures
        label_items(m, ids, label, prop).contains(item) <==> ids.contains(item.0)
            && m.nodes[item.0].labels.required().contains(label) && node_key(
            m.nodes[item.0],
            prop,
        ) == item.1,
    decreases ids.len(),
{
    if ids.len() > 0 {
        let rest = ids.drop_last();
        label_items_members(m, rest, label, prop, item);
        let before = label_items(m, rest, label, prop);
        let all = label_items(m, ids, label, prop);
        let n = m.nodes[ids.last()];
        assert(ids.contains(item.0) <==> rest.contains(item.0) || ids.last() == item.0) by {
            if rest.contains(item.0) {
                let i = choose|i: int| 0 <= i < rest.len() && rest[i] == item.0;
                assert(ids[i] == item.0);
            }
            if ids.contains(item.0) {
                let i = choose|i: int| 0 <= i < ids.len() && ids[i] == item.0;
                if i < rest.len() {
                    assert(rest[i] == item.0);
                }
            }
            assert(ids[ids.len() - 1] == ids.last());
        }
        if n.labels.required().contains(label) {
            let x = (ids.last(), node_key(n, prop));
            assert(all == before.push(x));
            assert(all[before.len() as int] == x);
            if before.contains(item) {
                let i = choose|i: int| 0 <= i < before.len() && before[i] == item;
                assert(all[i] == item);
            }
            if all.contains(item) {
                let i = choose|i: int| 0 <= i < all.len() && all[i] == item;
                if i < before.len() {
                    assert(before[i] == item);
                }
            }
        }
    }
}

/// An index answers as a look at every node would: a node comes out for a key
/// exactly where it is in the graph, has the label, and has a value with the
/// key.
pub proof fn index_answers(keys: KeyMap, m: GraphModel, label: Seq<char>, prop: Seq<char>, k: KeyView, id: Id)
    requires
        keys.holds(label_items(m, m.node_ids, label, prop)),
    ensures
        super::key_map::under(keys@, k).contains(id) <==> m.node_ids.contains(id)
            && m.nodes[id].labels.required().contains(label) && node_key(m.nodes[id], prop) == Some(
            k,
        ),
{
    let items = label_items(m, m.node_ids, label, prop);
    super::key_map::filed_members(items, k, id);
    label_items_members(m, m.node_ids, label, prop, (id, Some(k)));
}

/// The same of a range: a node comes out exactly where its key is in the range.
pub proof fn range_answers(
    keys: KeyMap,
    m: GraphModel,
    label: Seq<char>,
    prop: Seq<char>,
    lo: super::key_map::KeyBoundView,
    hi: super::key_map::KeyBoundView,
    id: Id,
)
    requires
        keys.holds(label_items(m, m.node_ids, label, prop)),
    ensures
        super::key_map::ids_within(keys@, lo, hi).contains(id) <==> m.node_ids.contains(id)
            && m.nodes[id].labels.required().contains(label) && node_key(m.nodes[id], prop) is Some
            && lo.from(node_key(m.nodes[id], prop)->Some_0) && hi.upto(
            node_key(m.nodes[id], prop)->Some_0,
        ),
{
    super::key_map::range_members(keys@, lo, hi, id);
    if super::key_map::ids_within(keys@, lo, hi).contains(id) {
        let k = choose|k: KeyView|
            lo.from(k) && hi.upto(k) && #[trigger] super::key_map::under(keys@, k).contains(id);
        index_answers(keys, m, label, prop, k, id);
    }
    match node_key(m.nodes[id], prop) {
        Some(k) => {
            index_answers(keys, m, label, prop, k, id);
        },
        None => {},
    }
}

} // verus!
