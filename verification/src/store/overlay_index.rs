//! An index of the nodes that changes beside a graph have touched. The index of
//! the graph itself stays as it is: a question is answered by its nodes without
//! those that were touched, and by the nodes here.

use vstd::prelude::*;

use std::collections::{HashMap, HashSet};

use super::index_key::{IndexKey, KeyView};
use super::key_map::{KeyBound, KeyMap};
use crate::fields::FieldMap;
use crate::model::value::{Id, Props, Value};
use crate::text::{copy_text, same_text};

verus! {

/// Where a node is filed.
pub struct Placement {
    pub label: String,
    pub prop: String,
    pub key: IndexKey,
}

/// Where a node is filed.
pub ghost struct Place {
    pub label: Seq<char>,
    pub prop: Seq<char>,
    pub key: KeyView,
}

impl Placement {
    /// The value.
    pub open spec fn view(&self) -> Place {
        Place { label: self.label@, prop: self.prop@, key: self.key@ }
    }
}

/// The ids at a place.
pub open spec fn ids_at(m: Map<Seq<char>, FieldMap<KeyMap>>, at: Place) -> Seq<Id> {
    match super::secondary_index::bucket(m, at.label, at.prop) {
        Some(b) => super::key_map::under(b@, at.key),
        None => Seq::empty(),
    }
}

/// A list of places has a place.
pub open spec fn has_place(places: Seq<Placement>, at: Place) -> bool {
    exists|i: int| 0 <= i < places.len() && (#[trigger] places[i])@ == at
}

/// The pairs of a label and a property that are indexed.
pub open spec fn has_pair(
    pairs: Seq<(String, String)>,
    label: Seq<char>,
    prop: Seq<char>,
) -> bool {
    exists|i: int| 0 <= i < pairs.len() && (#[trigger] pairs[i]).0@ == label && pairs[i].1@ == prop
}

/// How often a node is filed at a place.
pub open spec fn times_at(
    pairs: Seq<(String, String)>,
    labels: Seq<Seq<char>>,
    props: Map<Seq<char>, Value>,
    at: Place,
) -> nat {
    if has_pair(pairs, at.label, at.prop) && props.contains_key(at.prop)
        && super::index_key::key_of(props[at.prop]@) == Some(at.key) {
        super::secondary_index::times(labels, at.label)
    } else {
        0
    }
}

/// A list with an id some times behind it.
pub open spec fn with_times(ids: Seq<Id>, id: Id, n: nat) -> Seq<Id> {
    ids + Seq::new(n, |i: int| id)
}

fn pair_known(pairs: &Vec<(String, String)>, label: &str, prop: &str) -> (r: bool)
    ensures
        r == has_pair(pairs@, label@, prop@),
{
    let mut i: usize = 0;
    while i < pairs.len()
        invariant
            i <= pairs.len(),
            forall|j: int|
                0 <= j < i ==> !((#[trigger] pairs@[j]).0@ == label@ && pairs@[j].1@ == prop@),
        decreases pairs.len() - i,
    {
        if same_text(pairs[i].0.as_str(), label) && same_text(pairs[i].1.as_str(), prop) {
            assert(pairs@[i as int].0@ == label@);
            return true;
        }
        i = i + 1;
    }
    false
}

/// Files an id at a place.
fn push_at(m: &mut FieldMap<FieldMap<KeyMap>>, label: &str, prop: &str, key: IndexKey, id: Id)
    requires
        super::secondary_index::buckets_ok(old(m)@),
        key@.ok(),
    ensures
        super::secondary_index::buckets_ok(final(m)@),
        forall|at: Place| #[trigger]
            ids_at(final(m)@, at) == (if at.label == label@ && at.prop == prop@ && at.key == key@ {
                ids_at(old(m)@, at).push(id)
            } else {
                ids_at(old(m)@, at)
            }),
{
    let ghost m0 = m@;
    let mut inner = match m.remove(label) {
        Some(x) => x,
        None => FieldMap::new(),
    };
    let ghost in0 = inner@;
    let found = inner.remove(prop);
    let ghost was = found;
    proof {
        match was {
            Some(b) => {
                assert(super::secondary_index::bucket(m0, label@, prop@) == Some(b));
            },
            None => {
                assert(super::secondary_index::bucket(m0, label@, prop@) is None);
            },
        }
    }
    let mut keys = match found {
        Some(x) => x,
        None => KeyMap::new(),
    };
    let ghost k0 = keys;
    keys.push(key, id);
    let ghost k1 = keys;
    inner.insert(copy_text(prop), keys);
    m.insert(copy_text(label), inner);
    proof {
        assert forall|l: Seq<char>, p: Seq<char>| #[trigger]
            super::secondary_index::bucket(m@, l, p) == (if l == label@ && p == prop@ {
                Some(k1)
            } else {
                super::secondary_index::bucket(m0, l, p)
            }) by {}
        assert forall|at: Place| #[trigger]
            ids_at(m@, at) == (if at.label == label@ && at.prop == prop@ && at.key == key@ {
                ids_at(m0, at).push(id)
            } else {
                ids_at(m0, at)
            }) by {
            if at.label == label@ && at.prop == prop@ {
                assert(super::secondary_index::bucket(m@, at.label, at.prop) == Some(k1));
                assert(ids_at(m0, at) == super::key_map::under(k0@, at.key));
            }
        }
    }
}

/// Takes an id from a place.
fn retract_at(m: &mut FieldMap<FieldMap<KeyMap>>, label: &str, prop: &str, key: &IndexKey, id: Id)
    requires
        super::secondary_index::buckets_ok(old(m)@),
        key@.ok(),
    ensures
        super::secondary_index::buckets_ok(final(m)@),
        forall|at: Place| #[trigger]
            ids_at(final(m)@, at) == (if at.label == label@ && at.prop == prop@ && at.key == key@ {
                super::key_map::without(ids_at(old(m)@, at), id)
            } else {
                ids_at(old(m)@, at)
            }),
{
    let ghost m0 = m@;
    match m.remove(label) {
        None => {
            assert(m@ =~= m0);
        },
        Some(x) => {
            let mut inner = x;
            match inner.remove(prop) {
                None => {
                    m.insert(copy_text(label), inner);
                    proof {
                        assert forall|l: Seq<char>, p: Seq<char>| #[trigger]
                            super::secondary_index::bucket(m@, l, p)
                                == super::secondary_index::bucket(m0, l, p) by {}
                        assert forall|at: Place| #[trigger]
                            ids_at(m@, at) == ids_at(m0, at) by {
                            assert(super::secondary_index::bucket(m@, at.label, at.prop)
                                == super::secondary_index::bucket(m0, at.label, at.prop));
                        }
                    }
                },
                Some(found) => {
                    let mut keys = found;
                    let ghost k0 = keys;
                    assert(super::secondary_index::bucket(m0, label@, prop@) == Some(k0));
                    keys.retract(key, id);
                    let ghost k1 = keys;
                    inner.insert(copy_text(prop), keys);
                    m.insert(copy_text(label), inner);
                    proof {
                        assert forall|l: Seq<char>, p: Seq<char>| #[trigger]
                            super::secondary_index::bucket(m@, l, p) == (if l == label@ && p
                                == prop@ {
                                Some(k1)
                            } else {
                                super::secondary_index::bucket(m0, l, p)
                            }) by {}
                        assert forall|at: Place| #[trigger]
                            ids_at(m@, at) == (if at.label == label@ && at.prop == prop@ && at.key
                                == key@ {
                                super::key_map::without(ids_at(m0, at), id)
                            } else {
                                ids_at(m0, at)
                            }) by {
                            if at.label == label@ && at.prop == prop@ {
                                assert(super::secondary_index::bucket(m@, at.label, at.prop)
                                    == Some(k1));
                            } else {
                                assert(super::secondary_index::bucket(m@, at.label, at.prop)
                                    == super::secondary_index::bucket(m0, at.label, at.prop));
                            }
                        }
                    }
                },
            }
        },
    }
}

/// The touched nodes of a graph, filed by their present values.
pub struct OverlayNodeIndex {
    pub btrees: FieldMap<FieldMap<KeyMap>>,
    pub placements: HashMap<Id, Vec<Placement>>,
    pub shadowed: HashSet<Id>,
    pub absorbed: usize,
    pub witness: (usize, usize, usize, usize),
}

impl OverlayNodeIndex {
    /// The maps are in order, and whatever is filed is among the placements of
    /// its id.
    pub open spec fn wf(&self) -> bool {
        &&& super::secondary_index::buckets_ok(self.btrees@)
        &&& forall|at: Place, id: Id| #[trigger]
            ids_at(self.btrees@, at).contains(id) ==> self.placements@.contains_key(id)
                && has_place(self.placements@[id]@, at)
        &&& forall|id: Id, i: int|
            self.placements@.contains_key(id) && 0 <= i < self.placements@[id]@.len() ==> (
            #[trigger] self.placements@[id]@[i])@.key.ok()
    }

    /// Without nodes.
    pub fn new() -> (r: Self)
        ensures
            r.wf(),
            forall|at: Place| #[trigger] ids_at(r.btrees@, at) == Seq::<Id>::empty(),
            r.shadowed@ == Set::<Id>::empty(),
            r.absorbed == 0,
            r.witness == (0usize, 0usize, 0usize, 0usize),
    {
        broadcast use vstd::std_specs::hash::group_hash_axioms;

        OverlayNodeIndex {
            btrees: FieldMap::new(),
            placements: HashMap::new(),
            shadowed: HashSet::new(),
            absorbed: 0,
            witness: (0, 0, 0, 0),
        }
    }

    /// Forgets every node.
    pub fn clear(&mut self)
        ensures
            final(self).wf(),
            forall|at: Place| #[trigger] ids_at(final(self).btrees@, at) == Seq::<Id>::empty(),
            final(self).shadowed@ == Set::<Id>::empty(),
            final(self).absorbed == 0,
            final(self).witness == (0usize, 0usize, 0usize, 0usize),
    {
        *self = OverlayNodeIndex::new();
    }

    /// Whether what the index of the graph says of a node no longer counts.
    pub fn is_shadowed(&self, id: Id) -> (r: bool)
        ensures
            r == self.shadowed@.contains(id),
    {
        broadcast use vstd::std_specs::hash::group_hash_axioms;

        self.shadowed.contains(&id)
    }

    /// Takes a node out of every place.
    fn retract(&mut self, id: Id)
        requires
            old(self).wf(),
        ensures
            final(self).wf(),
            final(self).shadowed == old(self).shadowed,
            final(self).absorbed == old(self).absorbed,
            final(self).witness == old(self).witness,
            !final(self).placements@.contains_key(id),
            forall|at: Place| #[trigger]
                ids_at(final(self).btrees@, at) == super::key_map::without(
                    ids_at(old(self).btrees@, at),
                    id,
                ),
    {
        broadcast use vstd::std_specs::hash::group_hash_axioms;

        let ghost m0 = self.btrees@;
        let ghost p0 = self.placements@;
        let places = match self.placements.remove(&id) {
            Some(v) => v,
            None => {
                proof {
                    assert forall|at: Place| #[trigger]
                        ids_at(self.btrees@, at) == super::key_map::without(ids_at(m0, at), id) by {
                        super::key_map::without_same(ids_at(m0, at), id);
                    }
                    assert(self.placements@ =~= p0);
                }
                return;
            },
        };
        let ghost rest = self.placements@;
        let mut i: usize = 0;
        while i < places.len()
            invariant
                i <= places.len(),
                self.placements@ == rest,
                self.shadowed == old(self).shadowed,
                self.absorbed == old(self).absorbed,
                self.witness == old(self).witness,
                super::secondary_index::buckets_ok(self.btrees@),
                forall|j: int| 0 <= j < places@.len() ==> (#[trigger] places@[j])@.key.ok(),
                forall|at: Place| #[trigger]
                    ids_at(self.btrees@, at) == (if has_place(places@.take(i as int), at) {
                        super::key_map::without(ids_at(m0, at), id)
                    } else {
                        ids_at(m0, at)
                    }),
            decreases places.len() - i,
        {
            let ghost before = self.btrees@;
            let ghost pl = places@[i as int]@;
            assert(places@[i as int]@.key.ok());
            retract_at(
                &mut self.btrees,
                places[i].label.as_str(),
                places[i].prop.as_str(),
                &places[i].key,
                id,
            );
            proof {
                assert forall|at: Place| #[trigger]
                    ids_at(self.btrees@, at) == (if has_place(places@.take(i + 1), at) {
                        super::key_map::without(ids_at(m0, at), id)
                    } else {
                        ids_at(m0, at)
                    }) by {
                    let a = places@.take(i as int);
                    let b = places@.take(i + 1);
                    assert(ids_at(before, at) == (if has_place(a, at) {
                        super::key_map::without(ids_at(m0, at), id)
                    } else {
                        ids_at(m0, at)
                    }));
                    if has_place(a, at) {
                        let j = choose|j: int| 0 <= j < a.len() && (#[trigger] a[j])@ == at;
                        assert(b[j]@ == at);
                        twice_without(ids_at(m0, at), id);
                    }
                    if at == pl {
                        assert(b[i as int]@ == at);
                    }
                    if has_place(b, at) && at != pl {
                        let j = choose|j: int| 0 <= j < b.len() && (#[trigger] b[j])@ == at;
                        assert(a[j]@ == at);
                    }
                }
            }
            i = i + 1;
        }
        proof {
            assert(places@.take(i as int) =~= places@);
            assert forall|at: Place| #[trigger]
                ids_at(self.btrees@, at) == super::key_map::without(ids_at(m0, at), id) by {
                if !has_place(places@, at) {
                    super::key_map::without_same(ids_at(m0, at), id);
                }
            }
            assert forall|at: Place, x: Id| #[trigger]
                ids_at(self.btrees@, at).contains(x) implies self.placements@.contains_key(x)
                && has_place(self.placements@[x]@, at) by {
                super::key_map::without_members(ids_at(m0, at), id, x);
                assert(ids_at(m0, at).contains(x));
            }
        }
    }

    /// Files a node anew, by the labels and the properties that it has now. A
    /// node of the graph is shadowed.
    pub fn reindex(
        &mut self,
        pairs: &Vec<(String, String)>,
        base_node_count: u32,
        id: Id,
        labels: &Vec<String>,
        props: &Props,
    )
        requires
            old(self).wf(),
        ensures
            final(self).wf(),
            final(self).shadowed@ == (if id < base_node_count {
                old(self).shadowed@.insert(id)
            } else {
                old(self).shadowed@
            }),
            final(self).absorbed == old(self).absorbed,
            final(self).witness == old(self).witness,
            forall|at: Place| #[trigger]
                ids_at(final(self).btrees@, at) == with_times(
                    super::key_map::without(ids_at(old(self).btrees@, at), id),
                    id,
                    times_at(pairs@, crate::text::texts(labels@), props@, at),
                ),
    {
        broadcast use vstd::std_specs::hash::group_hash_axioms;

        let ghost m0 = self.btrees@;
        self.retract(id);
        if id < base_node_count {
            let _ = self.shadowed.insert(id);
        }
        let ghost m1 = self.btrees@;
        let ghost ls = crate::text::texts(labels@);
        let ghost rest = self.placements@;
        let ghost shade = self.shadowed@;
        let mut placed: Vec<Placement> = Vec::new();
        let n = props.len();
        let ghost keys = props.keys();
        let mut i: usize = 0;
        proof {
            assert forall|at: Place| #[trigger]
                ids_at(self.btrees@, at) == with_times(
                    ids_at(m1, at),
                    id,
                    times_at(pairs@, ls.take(0), props@, at),
                ) by {
                assert(with_times(ids_at(m1, at), id, 0) =~= ids_at(m1, at));
            }
        }
        while i < labels.len()
            invariant
                i <= labels.len(),
                ls == crate::text::texts(labels@),
                keys == props.keys(),
                n == keys.len(),
                keys.no_duplicates(),
                keys.to_set() == props@.dom(),
                self.placements@ == rest,
                self.shadowed@ == shade,
                self.absorbed == old(self).absorbed,
                self.witness == old(self).witness,
                super::secondary_index::buckets_ok(self.btrees@),
                forall|at: Place| #[trigger]
                    ids_at(self.btrees@, at) == with_times(
                        ids_at(m1, at),
                        id,
                        times_at(pairs@, ls.take(i as int), props@, at),
                    ),
                forall|at: Place|
                    #[trigger] times_at(pairs@, ls.take(i as int), props@, at) > 0 ==> has_place(
                        placed@,
                        at,
                    ),
                forall|j: int| 0 <= j < placed@.len() ==> (#[trigger] placed@[j])@.key.ok(),
            decreases labels.len() - i,
        {
            let ghost li = ls[i as int];
            let ghost m2 = self.btrees@;
            let ghost was_placed = placed@;
            let mut j: usize = 0;
            assert(ls.take(i + 1).drop_last() =~= ls.take(i as int));
            while j < n
                invariant
                    i < labels.len(),
                    j <= n,
                    ls == crate::text::texts(labels@),
                    li == ls[i as int],
                    keys == props.keys(),
                    n == keys.len(),
                    keys.no_duplicates(),
                    keys.to_set() == props@.dom(),
                    self.placements@ == rest,
                    self.shadowed@ == shade,
                    self.absorbed == old(self).absorbed,
                    self.witness == old(self).witness,
                    super::secondary_index::buckets_ok(self.btrees@),
                    forall|at: Place| #[trigger]
                        ids_at(self.btrees@, at) == (if at.label == li && keys.take(
                            j as int,
                        ).contains(at.prop) && filed_here(pairs@, props@, at) {
                            ids_at(m2, at).push(id)
                        } else {
                            ids_at(m2, at)
                        }),
                    forall|at: Place|
                        has_place(was_placed, at) ==> #[trigger] has_place(placed@, at),
                    forall|at: Place|
                        at.label == li && keys.take(j as int).contains(at.prop)
                            && #[trigger] filed_here(pairs@, props@, at) ==> has_place(placed@, at),
                    forall|k: int| 0 <= k < placed@.len() ==> (#[trigger] placed@[k])@.key.ok(),
                decreases n - j,
            {
                let prop = props.key_at(j);
                let ghost pj = keys[j as int];
                let ghost m3 = self.btrees@;
                let ghost placed3 = placed@;
                proof {
                    assert(keys.take(j + 1) =~= keys.take(j as int).push(pj));
                    assert(!keys.take(j as int).contains(pj)) by {
                        if keys.take(j as int).contains(pj) {
                            let k = choose|k: int| 0 <= k < j && keys.take(j as int)[k] == pj;
                            assert(keys[k] == pj);
                        }
                    }
                }
                let value = props.value_at(j);
                if pair_known(pairs, labels[i].as_str(), prop.as_str()) {
                    match IndexKey::from_value(value) {
                        Some(key) => {
                            let ghost kv = key@;
                            let copy = key.copy();
                            push_at(&mut self.btrees, labels[i].as_str(), prop.as_str(), copy, id);
                            placed.push(
                                Placement {
                                    label: labels[i].clone(),
                                    prop: prop.clone(),
                                    key,
                                },
                            );
                            proof {
                                let one = (Place { label: li, prop: pj, key: kv });
                                assert(placed@[placed3.len() as int]@ == one);
                                assert(has_place(placed@, one));
                                assert forall|at: Place| has_place(placed3, at) implies has_place(
                                    placed@,
                                    at,
                                ) by {
                                    let k = choose|k: int|
                                        0 <= k < placed3.len() && (#[trigger] placed3[k])@ == at;
                                    assert(placed@[k]@ == at);
                                }
                            }
                        },
                        None => {},
                    }
                }
                proof {
                    assert forall|at: Place| #[trigger]
                        ids_at(self.btrees@, at) == (if at.label == li && keys.take(
                            j + 1,
                        ).contains(at.prop) && filed_here(pairs@, props@, at) {
                            ids_at(m2, at).push(id)
                        } else {
                            ids_at(m2, at)
                        }) by {
                        pushed_prop(keys.take(j as int), pj, at.prop);
                        assert(ids_at(m3, at) == (if at.label == li && keys.take(
                            j as int,
                        ).contains(at.prop) && filed_here(pairs@, props@, at) {
                            ids_at(m2, at).push(id)
                        } else {
                            ids_at(m2, at)
                        }));
                    }
                    assert forall|at: Place|
                        at.label == li && keys.take(j + 1).contains(at.prop)
                            && #[trigger] filed_here(pairs@, props@, at) implies has_place(
                        placed@,
                        at,
                    ) by {
                        pushed_prop(keys.take(j as int), pj, at.prop);
                        if at.prop != pj {
                            assert(has_place(placed3, at));
                        }
                    }
                    assert forall|at: Place| has_place(was_placed, at) implies #[trigger] has_place(
                        placed@,
                        at,
                    ) by {
                        assert(has_place(placed3, at));
                    }
                }
                j = j + 1;
            }
            proof {
                assert(keys.take(n as int) =~= keys);
                assert forall|at: Place| #[trigger]
                    ids_at(self.btrees@, at) == with_times(
                        ids_at(m1, at),
                        id,
                        times_at(pairs@, ls.take(i + 1), props@, at),
                    ) by {
                    assert(props@.contains_key(at.prop) <==> keys.to_set().contains(at.prop));
                    assert(ids_at(m2, at) == with_times(
                        ids_at(m1, at),
                        id,
                        times_at(pairs@, ls.take(i as int), props@, at),
                    ));
                    assert(ls.take(i + 1).last() == li);
                    let t = times_at(pairs@, ls.take(i as int), props@, at);
                    assert(with_times(ids_at(m1, at), id, t).push(id) =~= with_times(
                        ids_at(m1, at),
                        id,
                        t + 1,
                    ));
                }
                assert forall|at: Place|
                    #[trigger] times_at(pairs@, ls.take(i + 1), props@, at) > 0 implies has_place(
                    placed@,
                    at,
                ) by {
                    assert(props@.contains_key(at.prop) <==> keys.to_set().contains(at.prop));
                    assert(ls.take(i + 1).last() == li);
                    if times_at(pairs@, ls.take(i as int), props@, at) > 0 {
                        assert(has_place(was_placed, at));
                        assert(has_place(placed@, at));
                    } else {
                        assert(filed_here(pairs@, props@, at));
                        assert(has_place(placed@, at));
                    }
                }
            }
            i = i + 1;
        }
        assert(ls.take(i as int) =~= ls);
        let ghost done = placed@;
        if placed.len() > 0 {
            let _ = self.placements.insert(id, placed);
        }
        proof {
            assert forall|at: Place, x: Id| #[trigger]
                ids_at(self.btrees@, at).contains(x) implies self.placements@.contains_key(x)
                && has_place(self.placements@[x]@, at) by {
                let t = times_at(pairs@, ls, props@, at);
                let old_ids = ids_at(m1, at);
                let k = choose|k: int|
                    0 <= k < ids_at(self.btrees@, at).len() && ids_at(self.btrees@, at)[k] == x;
                if k < old_ids.len() {
                    assert(old_ids[k] == x);
                    assert(old_ids.contains(x));
                    assert(rest.contains_key(x));
                    assert(x != id);
                } else {
                    assert(x == id);
                    assert(t > 0);
                    assert(has_place(done, at));
                    assert(done.len() > 0);
                }
            }
        }
    }

    /// Takes a deleted node out. A node of the graph is shadowed.
    pub fn forget(&mut self, base_node_count: u32, id: Id)
        requires
            old(self).wf(),
        ensures
            final(self).wf(),
            final(self).shadowed@ == (if id < base_node_count {
                old(self).shadowed@.insert(id)
            } else {
                old(self).shadowed@
            }),
            final(self).absorbed == old(self).absorbed,
            final(self).witness == old(self).witness,
            forall|at: Place| #[trigger]
                ids_at(final(self).btrees@, at) == super::key_map::without(
                    ids_at(old(self).btrees@, at),
                    id,
                ),
    {
        broadcast use vstd::std_specs::hash::group_hash_axioms;

        self.retract(id);
        if id < base_node_count {
            let _ = self.shadowed.insert(id);
        }
    }

    /// The touched nodes with a value.
    pub fn lookup_eq(&self, label: &str, prop: &str, value: &Value) -> (r: Vec<Id>)
        requires
            self.wf(),
        ensures
            r@ == (match super::index_key::key_of(value@) {
                Some(key) => ids_at(self.btrees@, (Place { label: label@, prop: prop@, key })),
                None => Seq::empty(),
            }),
    {
        match IndexKey::from_value(value) {
            Some(key) => match self.btrees.get(label) {
                Some(inner) => match inner.get(prop) {
                    Some(b) => {
                        assert(super::secondary_index::bucket(self.btrees@, label@, prop@) == Some(
                            *b,
                        ));
                        b.get(&key)
                    },
                    None => Vec::new(),
                },
                None => Vec::new(),
            },
            None => Vec::new(),
        }
    }

    /// The touched nodes with a value in a range.
    pub fn lookup_range(&self, label: &str, prop: &str, lo: &KeyBound, hi: &KeyBound) -> (r: Vec<Id>)
        requires
            self.wf(),
            lo@.ok(),
            hi@.ok(),
        ensures
            r@ == (match super::secondary_index::bucket(self.btrees@, label@, prop@) {
                Some(b) => super::key_map::ids_within(b@, lo@, hi@),
                None => Seq::empty(),
            }),
    {
        match self.btrees.get(label) {
            Some(inner) => match inner.get(prop) {
                Some(b) => {
                    assert(super::secondary_index::bucket(self.btrees@, label@, prop@) == Some(
                        *b,
                    ));
                    b.range(lo, hi)
                },
                None => Vec::new(),
            },
            None => Vec::new(),
        }
    }

    /// The keys of a label and a property with their nodes, in order.
    pub fn ordered_entries(&self, label: &str, prop: &str) -> (r: KeyMap)
        requires
            self.wf(),
        ensures
            r@ == (match super::secondary_index::bucket(self.btrees@, label@, prop@) {
                Some(b) => b@,
                None => Seq::empty(),
            }),
    {
        match self.btrees.get(label) {
            Some(inner) => match inner.get(prop) {
                Some(b) => b.copy(),
                None => KeyMap::new(),
            },
            None => KeyMap::new(),
        }
    }
}

/// A node with these properties is filed at a place if it has the label.
pub open spec fn filed_here(
    pairs: Seq<(String, String)>,
    props: Map<Seq<char>, Value>,
    at: Place,
) -> bool {
    has_pair(pairs, at.label, at.prop) && props.contains_key(at.prop)
        && super::index_key::key_of(props[at.prop]@) == Some(at.key)
}

proof fn pushed_prop(s: Seq<Seq<char>>, y: Seq<char>, x: Seq<char>)
    ensures
        s.push(y).contains(x) <==> s.contains(x) || x == y,
{
    if s.contains(x) {
        let i = choose|i: int| 0 <= i < s.len() && s[i] == x;
        assert(s.push(y)[i] == x);
    }
    assert(s.push(y)[s.len() as int] == y);
    if s.push(y).contains(x) && x != y {
        let i = choose|i: int| 0 <= i < s.push(y).len() && s.push(y)[i] == x;
        assert(s[i] == x);
    }
}

proof fn twice_without(ids: Seq<Id>, id: Id)
    ensures
        super::key_map::without(super::key_map::without(ids, id), id) == super::key_map::without(
            ids,
            id,
        ),
{
    super::key_map::without_members(ids, id, id);
    super::key_map::without_same(super::key_map::without(ids, id), id);
}

/// What filing a node anew does to the answers: the node comes out of a place
/// exactly where its present labels and properties put it there, and for every
/// other node nothing changes.
pub proof fn refiled(ids: Seq<Id>, id: Id, n: nat, x: Id)
    ensures
        with_times(super::key_map::without(ids, id), id, n).contains(x) <==> (if x == id {
            n > 0
        } else {
            ids.contains(x)
        }),
{
    let a = super::key_map::without(ids, id);
    let all = with_times(a, id, n);
    super::key_map::without_members(ids, id, x);
    if a.contains(x) {
        let i = choose|i: int| 0 <= i < a.len() && a[i] == x;
        assert(all[i] == x);
    }
    if n > 0 {
        assert(all[a.len() as int] == id);
    }
    if all.contains(x) {
        let i = choose|i: int| 0 <= i < all.len() && all[i] == x;
        if i < a.len() {
            assert(a[i] == x);
        }
    }
}

} // verus!
