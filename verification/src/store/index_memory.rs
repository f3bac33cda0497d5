//! The memory of the indexes on properties.

use vstd::prelude::*;

use super::index_key::IndexKey;
use super::key_map::KeyMap;
use super::secondary_index::SecondaryIndex;
use crate::fields::FieldMap;
use crate::heap::{plus, room_of, sum_lists, text_room};

verus! {

/// The room of an index: of the name of its property, and of each list for ids.
pub struct PropRoom {
    pub prop: usize,
    pub lists: Vec<usize>,
}

/// The room of the indexes of one label, with that of its name.
pub struct LabelRoom {
    pub label: usize,
    pub props: Vec<PropRoom>,
}

/// The bytes of the indexes of one label: of each its two names and its lists.
pub open spec fn props_bytes(label: nat, props: Seq<PropRoom>, each: nat) -> nat
    decreases props.len(),
{
    if props.len() == 0 {
        0
    } else {
        props_bytes(label, props.drop_last(), each) + label + props.last().prop as nat
            + crate::heap::lists_bytes(props.last().lists@, each)
    }
}

/// The bytes of indexes.
pub open spec fn tables_bytes(labels: Seq<LabelRoom>, each: nat) -> nat
    decreases labels.len(),
{
    if labels.len() == 0 {
        0
    } else {
        tables_bytes(labels.drop_last(), each) + props_bytes(
            labels.last().label as nat,
            labels.last().props@,
            each,
        )
    }
}

/// Rooms that hold an index.
pub open spec fn lists_fit(k: KeyMap, lists: Seq<usize>) -> bool {
    &&& lists.len() == k.entries@.len()
    &&& forall|i: int|
        0 <= i < lists.len() ==> (#[trigger] lists[i]) >= k.entries@[i].1@.len()
}

/// Rooms that hold the indexes of one label.
pub open spec fn props_fit(m: FieldMap<KeyMap>, props: Seq<PropRoom>) -> bool {
    &&& props.len() == m.keys().len()
    &&& forall|i: int|
        0 <= i < props.len() ==> {
            &&& (#[trigger] props[i]).prop >= m.keys()[i].len()
            &&& lists_fit(m.values()[i], props[i].lists@)
        }
}

/// Rooms that hold indexes.
pub open spec fn tables_fit(m: FieldMap<FieldMap<KeyMap>>, labels: Seq<LabelRoom>) -> bool {
    &&& labels.len() == m.keys().len()
    &&& forall|i: int|
        0 <= i < labels.len() ==> {
            &&& (#[trigger] labels[i]).label >= m.keys()[i].len()
            &&& props_fit(m.values()[i], labels[i].props@)
        }
}

/// The bytes of the indexes of one label, by their room.
fn sum_props(label: usize, props: &Vec<PropRoom>, each: usize) -> (r: usize)
    ensures
        r == crate::heap::capped(props_bytes(label as nat, props@, each as nat)),
{
    let mut sum: usize = 0;
    let mut i: usize = 0;
    while i < props.len()
        invariant
            i <= props.len(),
            sum == crate::heap::capped(
                props_bytes(label as nat, props@.take(i as int), each as nat),
            ),
        decreases props.len() - i,
    {
        assert(props@.take(i + 1).drop_last() =~= props@.take(i as int));
        let names = plus(label, props[i].prop);
        sum = plus(plus(sum, names), sum_lists(&props[i].lists, each));
        i = i + 1;
    }
    assert(props@.take(i as int) =~= props@);
    sum
}

/// The bytes of indexes, by their room.
pub fn sum_tables(labels: &Vec<LabelRoom>, each: usize) -> (r: usize)
    ensures
        r == crate::heap::capped(tables_bytes(labels@, each as nat)),
{
    let mut sum: usize = 0;
    let mut i: usize = 0;
    while i < labels.len()
        invariant
            i <= labels.len(),
            sum == crate::heap::capped(tables_bytes(labels@.take(i as int), each as nat)),
        decreases labels.len() - i,
    {
        assert(labels@.take(i + 1).drop_last() =~= labels@.take(i as int));
        sum = plus(sum, sum_props(labels[i].label, &labels[i].props, each));
        i = i + 1;
    }
    assert(labels@.take(i as int) =~= labels@);
    sum
}

fn list_rooms(k: &KeyMap) -> (r: Vec<usize>)
    ensures
        lists_fit(*k, r@),
{
    let mut lists: Vec<usize> = Vec::new();
    let mut i: usize = 0;
    while i < k.entries.len()
        invariant
            i <= k.entries.len(),
            lists@.len() == i,
            forall|j: int| 0 <= j < i ==> (#[trigger] lists@[j]) >= k.entries@[j].1@.len(),
        decreases k.entries.len() - i,
    {
        lists.push(room_of(&k.entries[i].1));
        i = i + 1;
    }
    lists
}

fn prop_rooms(m: &FieldMap<KeyMap>) -> (r: Vec<PropRoom>)
    ensures
        props_fit(*m, r@),
{
    let n = m.len();
    let mut props: Vec<PropRoom> = Vec::new();
    let mut i: usize = 0;
    while i < n
        invariant
            i <= n,
            n == m.keys().len(),
            props@.len() == i,
            forall|j: int|
                0 <= j < i ==> {
                    &&& (#[trigger] props@[j]).prop >= m.keys()[j].len()
                    &&& lists_fit(m.values()[j], props@[j].lists@)
                },
        decreases n - i,
    {
        let lists = list_rooms(m.value_at(i));
        props.push(PropRoom { prop: text_room(m.key_at(i)), lists });
        i = i + 1;
    }
    props
}

fn table_rooms(m: &FieldMap<FieldMap<KeyMap>>) -> (r: Vec<LabelRoom>)
    ensures
        tables_fit(*m, r@),
{
    let n = m.len();
    let mut labels: Vec<LabelRoom> = Vec::new();
    let mut i: usize = 0;
    while i < n
        invariant
            i <= n,
            n == m.keys().len(),
            labels@.len() == i,
            forall|j: int|
                0 <= j < i ==> {
                    &&& (#[trigger] labels@[j]).label >= m.keys()[j].len()
                    &&& props_fit(m.values()[j], labels@[j].props@)
                },
        decreases n - i,
    {
        let props = prop_rooms(m.value_at(i));
        labels.push(LabelRoom { label: text_room(m.key_at(i)), props });
        i = i + 1;
    }
    labels
}

/// The bytes of all indexes: each entry counts its key and 24 more, in a hash
/// index another 16.
pub open spec fn index_bytes(hashes: Seq<LabelRoom>, btrees: Seq<LabelRoom>, key: nat) -> nat {
    tables_bytes(hashes, crate::heap::capped(key + 40)) + tables_bytes(
        btrees,
        crate::heap::capped(key + 24),
    )
}

impl SecondaryIndex {
    /// The bytes that the entries of all indexes take up.
    pub fn heap_bytes(&self) -> (r: usize)
        ensures
            exists|hashes: Seq<LabelRoom>, btrees: Seq<LabelRoom>| #[trigger]
                tables_fit(self.hashes, hashes) && #[trigger] tables_fit(self.btrees, btrees) && r
                    == crate::heap::capped(
                    index_bytes(hashes, btrees, vstd::layout::size_of::<IndexKey>()),
                ),
    {
        let hashes = table_rooms(&self.hashes);
        let btrees = table_rooms(&self.btrees);
        let key = core::mem::size_of::<IndexKey>();
        plus(sum_tables(&hashes, plus(key, 40)), sum_tables(&btrees, plus(key, 24)))
    }
}

} // verus!
