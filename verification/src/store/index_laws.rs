//! What an index on a property is asked for: the nodes whose value lies between
//! two others, and all nodes in the order of their values.

use vstd::prelude::*;

use super::index_key::KeyView;
use super::key_map::{Bound, KeyBoundView, KeyMap};
use crate::model::graph_access::GraphModel;
use crate::model::value::{Id, ValueView};

verus! {

/// An included end admits itself, an excluded one does not. Of the other keys
/// both admit those on their side, and no end at all admits every key.
pub proof fn ends_admit_their_side(b: KeyView, k: KeyView)
    requires
        b.ok(),
        k.ok(),
    ensures
        KeyBoundView::Included(b).upto(b),
        KeyBoundView::Included(b).from(b),
        !KeyBoundView::Excluded(b).upto(b),
        !KeyBoundView::Excluded(b).from(b),
        KeyBoundView::Included(b).upto(k) <==> k == b || k.lt(b),
        KeyBoundView::Included(b).from(k) <==> k == b || b.lt(k),
        KeyBoundView::Excluded(b).upto(k) <==> k != b && !b.lt(k),
        KeyBoundView::Excluded(b).from(k) <==> k != b && !k.lt(b),
        KeyBoundView::Unbounded.upto(k),
        KeyBoundView::Unbounded.from(k),
        // Every key is on one side of an end, on both only where it is the end.
        KeyBoundView::Included(b).upto(k) != KeyBoundView::Excluded(b).from(k),
        KeyBoundView::Included(b).from(k) != KeyBoundView::Excluded(b).upto(k),
{
    super::index_key::key_order_total(b, k, b);
    super::index_key::key_order_total(k, b, k);
}

/// A range from a key to the same key holds what is filed under it.
pub proof fn range_of_one_key(entries: Seq<(KeyView, Seq<Id>)>, b: KeyView)
    requires
        super::key_map::keys_ok(entries),
        b.ok(),
    ensures
        super::key_map::ids_within(
            entries,
            KeyBoundView::Included(b),
            KeyBoundView::Included(b),
        ) == super::key_map::under(entries, b),
        super::key_map::ids_within(
            entries,
            KeyBoundView::Excluded(b),
            KeyBoundView::Included(b),
        ) == Seq::<Id>::empty(),
        super::key_map::ids_within(
            entries,
            KeyBoundView::Included(b),
            KeyBoundView::Excluded(b),
        ) == Seq::<Id>::empty(),
    decreases entries.len(),
{
    if entries.len() > 0 {
        let last = entries.len() - 1;
        let init = entries.drop_last();
        prefix_ok(entries);
        range_of_one_key(init, b);
        ends_admit_their_side(b, entries[last].0);
        if entries[last].0 == b {
            assert forall|i: int| 0 <= i < init.len() implies (#[trigger] init[i]).0 != b by {
                assert(entries[i].0.lt(entries[last].0));
                super::index_key::key_order_total(b, b, b);
            }
            super::key_map::under_none(init, b);
            assert(Seq::<Id>::empty() + entries[last].1 =~= entries[last].1);
        }
    }
}

proof fn prefix_ok(entries: Seq<(KeyView, Seq<Id>)>)
    requires
        super::key_map::keys_ok(entries),
        entries.len() > 0,
    ensures
        super::key_map::keys_ok(entries.drop_last()),
{
    let e = entries.drop_last();
    assert forall|i: int| 0 <= i < e.len() implies (#[trigger] e[i]).0.ok() by {
        assert(entries[i].0.ok());
    }
    assert forall|i: int, j: int| 0 <= i < j < e.len() implies (#[trigger] e[i]).0.lt(
        (#[trigger] e[j]).0,
    ) by {
        assert(entries[i].0.lt(entries[j].0));
    }
}

/// An integer is not below a lower end.
pub open spec fn int_from(lo: Bound, x: int) -> bool {
    match lo {
        Bound::Included(v) => v@ is Int && v@->Int_0 <= x,
        Bound::Excluded(v) => v@ is Int && v@->Int_0 < x,
        Bound::Unbounded => true,
    }
}

/// An integer is not above an upper end.
pub open spec fn int_upto(hi: Bound, x: int) -> bool {
    match hi {
        Bound::Included(v) => v@ is Int && x <= v@->Int_0,
        Bound::Excluded(v) => v@ is Int && x < v@->Int_0,
        Bound::Unbounded => true,
    }
}

/// The end is an integer, or there is none.
pub open spec fn int_bound(b: Bound) -> bool {
    match b {
        Bound::Included(v) => v@ is Int,
        Bound::Excluded(v) => v@ is Int,
        Bound::Unbounded => true,
    }
}

proof fn int_bounds_compare(lo: Bound, hi: Bound, x: i64)
    requires
        int_bound(lo),
        int_bound(hi),
    ensures
        super::key_map::bound_key(lo) is Some,
        super::key_map::bound_key(hi) is Some,
        super::key_map::bound_key(lo)->Some_0.from(KeyView::Int(x)) <==> int_from(lo, x as int),
        super::key_map::bound_key(hi)->Some_0.upto(KeyView::Int(x)) <==> int_upto(hi, x as int),
{
    let e = Seq::<char>::empty();
    match lo {
        Bound::Included(v) => {
            super::index_key::keys_order_as_values(x, v@->Int_0, true, true, e, 'a', 'a', e, e);
        },
        Bound::Excluded(v) => {
            super::index_key::keys_order_as_values(v@->Int_0, x, true, true, e, 'a', 'a', e, e);
        },
        Bound::Unbounded => {},
    }
    match hi {
        Bound::Included(v) => {
            super::index_key::keys_order_as_values(v@->Int_0, x, true, true, e, 'a', 'a', e, e);
        },
        Bound::Excluded(v) => {
            super::index_key::keys_order_as_values(x, v@->Int_0, true, true, e, 'a', 'a', e, e);
        },
        Bound::Unbounded => {},
    }
}

/// A question for a range of integers is answered by comparing integers: a node
/// with an integer comes out exactly where the integer lies between the ends.
pub proof fn integer_ranges_compare(
    keys: KeyMap,
    m: GraphModel,
    label: Seq<char>,
    prop: Seq<char>,
    lo: Bound,
    hi: Bound,
    id: Id,
    x: i64,
)
    requires
        keys.holds(super::secondary_index::label_items(m, m.node_ids, label, prop)),
        int_bound(lo),
        int_bound(hi),
        m.node_ids.contains(id),
        m.nodes[id].labels.required().contains(label),
        m.nodes[id].props.contains_key(prop),
        m.nodes[id].props[prop] == ValueView::Int(x),
    ensures
        super::key_map::bound_key(lo) is Some,
        super::key_map::bound_key(hi) is Some,
        super::key_map::ids_within(
            keys@,
            super::key_map::bound_key(lo)->Some_0,
            super::key_map::bound_key(hi)->Some_0,
        ).contains(id) <==> int_from(lo, x as int) && int_upto(hi, x as int),
{
    int_bounds_compare(lo, hi, x);
    super::secondary_index::range_answers(
        keys,
        m,
        label,
        prop,
        super::key_map::bound_key(lo)->Some_0,
        super::key_map::bound_key(hi)->Some_0,
        id,
    );
}

/// A node that has no such label, or no value that an index files, comes out of
/// no range.
pub proof fn ranges_hold_labelled_values(
    keys: KeyMap,
    m: GraphModel,
    label: Seq<char>,
    prop: Seq<char>,
    lo: KeyBoundView,
    hi: KeyBoundView,
    id: Id,
)
    requires
        keys.holds(super::secondary_index::label_items(m, m.node_ids, label, prop)),
        super::key_map::ids_within(keys@, lo, hi).contains(id),
    ensures
        m.node_ids.contains(id),
        m.nodes[id].labels.required().contains(label),
        m.nodes[id].props.contains_key(prop),
        m.nodes[id].props[prop] is Int || m.nodes[id].props[prop] is Float
            || m.nodes[id].props[prop] is Str || m.nodes[id].props[prop] is Bool,
{
    super::secondary_index::range_answers(keys, m, label, prop, lo, hi, id);
}

/// A range comes out in the order of values, and so do all nodes in ascending
/// order.
pub proof fn ranges_ascend(
    keys: KeyMap,
    m: GraphModel,
    label: Seq<char>,
    prop: Seq<char>,
    lo: KeyBoundView,
    hi: KeyBoundView,
    i: int,
    j: int,
)
    requires
        keys.holds(super::secondary_index::label_items(m, m.node_ids, label, prop)),
        0 <= i < j < super::key_map::ids_within(keys@, lo, hi).len(),
    ensures
        ({
            let ids = super::key_map::ids_within(keys@, lo, hi);
            let a = super::index_key::key_of(m.nodes[ids[i]].props[prop]);
            let b = super::index_key::key_of(m.nodes[ids[j]].props[prop]);
            a is Some && b is Some && (a == b || a->Some_0.lt(b->Some_0))
        }),
{
    let (p, q) = entries_of_range(keys@, lo, hi, i, j);
    entry_has_key(keys, m, label, prop, p, super::key_map::ids_within(keys@, lo, hi)[i]);
    entry_has_key(keys, m, label, prop, q, super::key_map::ids_within(keys@, lo, hi)[j]);
}

/// All nodes in descending order: the value of none is above one before it, and
/// they are the nodes that come out in ascending order.
pub proof fn descending_descends(
    keys: KeyMap,
    m: GraphModel,
    label: Seq<char>,
    prop: Seq<char>,
    i: int,
    j: int,
)
    requires
        keys.holds(super::secondary_index::label_items(m, m.node_ids, label, prop)),
        0 <= i < j < super::key_map::ids_descending(keys@).len(),
    ensures
        ({
            let ids = super::key_map::ids_descending(keys@);
            let a = super::index_key::key_of(m.nodes[ids[i]].props[prop]);
            let b = super::index_key::key_of(m.nodes[ids[j]].props[prop]);
            a is Some && b is Some && (a == b || b->Some_0.lt(a->Some_0))
        }),
{
    let (p, q) = entries_descending(keys@, i, j);
    entry_has_key(keys, m, label, prop, p, super::key_map::ids_descending(keys@)[i]);
    entry_has_key(keys, m, label, prop, q, super::key_map::ids_descending(keys@)[j]);
}

/// Ascending and descending order hold the same nodes, each as often.
pub proof fn both_orders_hold_the_same(entries: Seq<(KeyView, Seq<Id>)>)
    ensures
        super::key_map::ids_descending(entries).to_multiset() == super::key_map::ids_within(
            entries,
            KeyBoundView::Unbounded,
            KeyBoundView::Unbounded,
        ).to_multiset(),
    decreases entries.len(),
{
    broadcast use vstd::seq_lib::group_to_multiset_ensures;

    if entries.len() > 0 {
        let init = entries.drop_last();
        both_orders_hold_the_same(init);
        let down = super::key_map::ids_descending(init);
        let up = super::key_map::ids_within(
            init,
            KeyBoundView::Unbounded,
            KeyBoundView::Unbounded,
        );
        vstd::seq_lib::lemma_multiset_commutative(entries.last().1, down);
        vstd::seq_lib::lemma_multiset_commutative(up, entries.last().1);
        assert(super::key_map::ids_descending(entries).to_multiset() =~= up.to_multiset().add(
            entries.last().1.to_multiset(),
        ));
    } else {
        assert(super::key_map::ids_descending(entries) =~= Seq::<Id>::empty());
    }
}

/// The entries that two ids of a range are filed in.
proof fn entries_of_range(
    entries: Seq<(KeyView, Seq<Id>)>,
    lo: KeyBoundView,
    hi: KeyBoundView,
    i: int,
    j: int,
) -> (r: (int, int))
    requires
        0 <= i <= j < super::key_map::ids_within(entries, lo, hi).len(),
    ensures
        0 <= r.0 <= r.1 < entries.len(),
        entries[r.0].1.contains(super::key_map::ids_within(entries, lo, hi)[i]),
        entries[r.1].1.contains(super::key_map::ids_within(entries, lo, hi)[j]),
    decreases entries.len(),
{
    let init = entries.drop_last();
    let rest = super::key_map::ids_within(init, lo, hi);
    let all = super::key_map::ids_within(entries, lo, hi);
    let last = entries.len() - 1;
    if j < rest.len() {
        let r = entries_of_range(init, lo, hi, i, j);
        assert(all[i] == rest[i] && all[j] == rest[j]);
        r
    } else {
        assert(entries[last].1[j - rest.len()] == all[j]);
        if i < rest.len() {
            let r = entries_of_range(init, lo, hi, i, i);
            assert(all[i] == rest[i]);
            (r.0, last)
        } else {
            assert(entries[last].1[i - rest.len()] == all[i]);
            (last, last)
        }
    }
}

/// The entries that two ids are filed in, from the last to the first.
proof fn entries_descending(entries: Seq<(KeyView, Seq<Id>)>, i: int, j: int) -> (r: (int, int))
    requires
        0 <= i <= j < super::key_map::ids_descending(entries).len(),
    ensures
        0 <= r.1 <= r.0 < entries.len(),
        entries[r.0].1.contains(super::key_map::ids_descending(entries)[i]),
        entries[r.1].1.contains(super::key_map::ids_descending(entries)[j]),
    decreases entries.len(),
{
    let init = entries.drop_last();
    let rest = super::key_map::ids_descending(init);
    let all = super::key_map::ids_descending(entries);
    let last = entries.len() - 1;
    let n = entries[last].1.len();
    if i >= n {
        let r = entries_descending(init, i - n, j - n);
        assert(all[i] == rest[i - n] && all[j] == rest[j - n]);
        r
    } else {
        assert(entries[last].1[i] == all[i]);
        if j >= n {
            let r = entries_descending(init, j - n, j - n);
            assert(all[j] == rest[j - n]);
            (last, r.1)
        } else {
            assert(entries[last].1[j] == all[j]);
            (last, last)
        }
    }
}

proof fn entry_has_key(
    keys: KeyMap,
    m: GraphModel,
    label: Seq<char>,
    prop: Seq<char>,
    p: int,
    id: Id,
)
    requires
        keys.holds(super::secondary_index::label_items(m, m.node_ids, label, prop)),
        0 <= p < keys@.len(),
        keys@[p].1.contains(id),
    ensures
        super::index_key::key_of(m.nodes[id].props[prop]) == Some(keys@[p].0),
{
    super::key_map::under_entry(keys@, p);
    super::secondary_index::index_answers(keys, m, label, prop, keys@[p].0, id);
}

} // verus!
