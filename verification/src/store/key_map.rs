//! Ids filed under keys, in the order of the keys.

use vstd::prelude::*;

use super::index_key::{IndexKey, KeyView};
use crate::model::value::{Id, Value};

verus! {

/// Ids under keys. Keys ascend, and no list is empty.
pub struct KeyMap {
    pub entries: Vec<(IndexKey, Vec<Id>)>,
}

/// One end of a range of values.
pub enum Bound {
    Included(Value),
    Excluded(Value),
    Unbounded,
}

/// One end of a range of keys.
pub enum KeyBound {
    Included(IndexKey),
    Excluded(IndexKey),
    Unbounded,
}

/// The value of an end of a range.
pub enum KeyBoundView {
    Included(KeyView),
    Excluded(KeyView),
    Unbounded,
}

/// The key of an end of a range, where its value has one.
pub open spec fn bound_key(b: Bound) -> Option<KeyBoundView> {
    match b {
        Bound::Included(v) => match super::index_key::key_of(v@) {
            Some(k) => Some(KeyBoundView::Included(k)),
            None => None,
        },
        Bound::Excluded(v) => match super::index_key::key_of(v@) {
            Some(k) => Some(KeyBoundView::Excluded(k)),
            None => None,
        },
        Bound::Unbounded => Some(KeyBoundView::Unbounded),
    }
}

impl KeyBoundView {
    /// The key of the end is filed in its one way.
    pub open spec fn ok(self) -> bool {
        match self {
            KeyBoundView::Included(k) => k.ok(),
            KeyBoundView::Excluded(k) => k.ok(),
            KeyBoundView::Unbounded => true,
        }
    }

    /// The key is not below a lower end.
    pub open spec fn from(self, k: KeyView) -> bool {
        match self {
            KeyBoundView::Included(b) => !k.lt(b),
            KeyBoundView::Excluded(b) => b.lt(k),
            KeyBoundView::Unbounded => true,
        }
    }

    /// The key is not above an upper end.
    pub open spec fn upto(self, k: KeyView) -> bool {
        match self {
            KeyBoundView::Included(b) => !b.lt(k),
            KeyBoundView::Excluded(b) => k.lt(b),
            KeyBoundView::Unbounded => true,
        }
    }
}

impl KeyBound {
    /// The value.
    pub open spec fn view(&self) -> KeyBoundView {
        match self {
            KeyBound::Included(k) => KeyBoundView::Included(k@),
            KeyBound::Excluded(k) => KeyBoundView::Excluded(k@),
            KeyBound::Unbounded => KeyBoundView::Unbounded,
        }
    }

    /// The end of a range of keys for an end of a range of values.
    pub fn from_bound(b: &Bound) -> (r: Option<KeyBound>)
        ensures
            match r {
                Some(k) => bound_key(*b) == Some(k@) && k@.ok(),
                None => bound_key(*b) is None,
            },
    {
        match b {
            Bound::Included(v) => match IndexKey::from_value(v) {
                Some(k) => Some(KeyBound::Included(k)),
                None => None,
            },
            Bound::Excluded(v) => match IndexKey::from_value(v) {
                Some(k) => Some(KeyBound::Excluded(k)),
                None => None,
            },
            Bound::Unbounded => Some(KeyBound::Unbounded),
        }
    }

    fn admits_from(&self, k: &IndexKey) -> (r: bool)
        requires
            self@.ok(),
            k@.ok(),
        ensures
            r == self@.from(k@),
    {
        match self {
            KeyBound::Included(b) => !k.less(b),
            KeyBound::Excluded(b) => b.less(k),
            KeyBound::Unbounded => true,
        }
    }

    fn admits_upto(&self, k: &IndexKey) -> (r: bool)
        requires
            self@.ok(),
            k@.ok(),
        ensures
            r == self@.upto(k@),
    {
        match self {
            KeyBound::Included(b) => !b.less(k),
            KeyBound::Excluded(b) => k.less(b),
            KeyBound::Unbounded => true,
        }
    }
}

/// The ids under a key.
pub open spec fn under(entries: Seq<(KeyView, Seq<Id>)>, k: KeyView) -> Seq<Id>
    decreases entries.len(),
{
    if entries.len() == 0 {
        Seq::empty()
    } else if entries.last().0 == k {
        entries.last().1
    } else {
        under(entries.drop_last(), k)
    }
}

/// The ids whose key lies in a range, key by key.
pub open spec fn ids_within(
    entries: Seq<(KeyView, Seq<Id>)>,
    lo: KeyBoundView,
    hi: KeyBoundView,
) -> Seq<Id>
    decreases entries.len(),
{
    if entries.len() == 0 {
        Seq::empty()
    } else {
        let rest = ids_within(entries.drop_last(), lo, hi);
        if lo.from(entries.last().0) && hi.upto(entries.last().0) {
            rest + entries.last().1
        } else {
            rest
        }
    }
}

/// All ids, from the last key to the first.
pub open spec fn ids_descending(entries: Seq<(KeyView, Seq<Id>)>) -> Seq<Id>
    decreases entries.len(),
{
    if entries.len() == 0 {
        Seq::empty()
    } else {
        entries.last().1 + ids_descending(entries.drop_last())
    }
}

/// The ids that are filed under a key, of ids with the keys of their values.
pub open spec fn filed(items: Seq<(Id, Option<KeyView>)>, k: KeyView) -> Seq<Id>
    decreases items.len(),
{
    if items.len() == 0 {
        Seq::empty()
    } else {
        let rest = filed(items.drop_last(), k);
        if items.last().1 == Some(k) {
            rest.push(items.last().0)
        } else {
            rest
        }
    }
}

/// Keys ascend, each in its one way.
pub open spec fn keys_ok(entries: Seq<(KeyView, Seq<Id>)>) -> bool {
    &&& forall|i: int| 0 <= i < entries.len() ==> (#[trigger] entries[i]).0.ok()
    &&& forall|i: int, j: int|
        0 <= i < j < entries.len() ==> (#[trigger] entries[i]).0.lt((#[trigger] entries[j]).0)
}

/// No list is empty.
pub open spec fn lists_filled(entries: Seq<(KeyView, Seq<Id>)>) -> bool {
    forall|i: int| 0 <= i < entries.len() ==> (#[trigger] entries[i]).1.len() > 0
}

/// The entry of a key is what stands under it.
pub proof fn under_entry(entries: Seq<(KeyView, Seq<Id>)>, i: int)
    requires
        keys_ok(entries),
        0 <= i < entries.len(),
    ensures
        under(entries, entries[i].0) == entries[i].1,
    decreases entries.len(),
{
    let last = entries.len() - 1;
    if i < last {
        super::index_key::key_order_total(entries[i].0, entries[last].0, entries[i].0);
        assert(entries[i].0.lt(entries[last].0));
        keys_ok_prefix(entries);
        under_entry(entries.drop_last(), i);
    }
}

/// A key with ids under it has an entry.
proof fn under_some(entries: Seq<(KeyView, Seq<Id>)>, k: KeyView) -> (i: int)
    requires
        under(entries, k).len() > 0,
    ensures
        0 <= i < entries.len(),
        entries[i].0 == k,
    decreases entries.len(),
{
    if entries.len() > 0 && entries.last().0 == k {
        entries.len() - 1
    } else {
        under_some(entries.drop_last(), k)
    }
}

/// What stands under each key determines the entries.
pub proof fn held_alike(a: Seq<(KeyView, Seq<Id>)>, b: Seq<(KeyView, Seq<Id>)>)
    requires
        keys_ok(a),
        keys_ok(b),
        lists_filled(a),
        lists_filled(b),
        forall|k: KeyView| #[trigger] under(a, k) == under(b, k),
    ensures
        a == b,
    decreases a.len(),
{
    if a.len() == 0 {
        if b.len() > 0 {
            under_entry(b, 0);
            assert(under(a, b[0].0).len() == 0);
        }
    } else if b.len() == 0 {
        under_entry(a, 0);
        assert(under(b, a[0].0).len() == 0);
    } else {
        let m = a.len() - 1;
        let n = b.len() - 1;
        under_entry(a, m);
        under_entry(b, n);
        assert(under(b, a[m].0) == a[m].1);
        assert(under(a, b[n].0) == b[n].1);
        let j = under_some(b, a[m].0);
        let i = under_some(a, b[n].0);
        super::index_key::key_order_total(a[m].0, b[n].0, a[m].0);
        if j < n {
            assert(b[j].0.lt(b[n].0));
            if i < m {
                assert(a[i].0.lt(a[m].0));
            }
        }
        assert(a[m].0 == b[n].0);
        let x = a.drop_last();
        let y = b.drop_last();
        keys_ok_prefix(a);
        keys_ok_prefix(b);
        assert forall|k: KeyView| #[trigger] under(x, k) == under(y, k) by {
            assert(under(a, k) == under(b, k));
            if k == a[m].0 {
                assert forall|h: int| 0 <= h < x.len() implies (#[trigger] x[h]).0 != k by {
                    assert(a[h].0.lt(a[m].0));
                    super::index_key::key_order_total(a[h].0, a[m].0, a[h].0);
                }
                assert forall|h: int| 0 <= h < y.len() implies (#[trigger] y[h]).0 != k by {
                    assert(b[h].0.lt(b[n].0));
                    super::index_key::key_order_total(b[h].0, b[n].0, b[h].0);
                }
                under_none(x, k);
                under_none(y, k);
            }
        }
        held_alike(x, y);
        assert(a =~= x.push(a[m]));
        assert(b =~= y.push(b[n]));
    }
}

/// A key without an entry has no ids under it.
pub proof fn under_none(entries: Seq<(KeyView, Seq<Id>)>, k: KeyView)
    requires
        forall|i: int| 0 <= i < entries.len() ==> (#[trigger] entries[i]).0 != k,
    ensures
        under(entries, k) == Seq::<Id>::empty(),
    decreases entries.len(),
{
    if entries.len() > 0 {
        assert(entries[entries.len() - 1].0 != k);
        assert forall|i: int| 0 <= i < entries.drop_last().len() implies (
        #[trigger] entries.drop_last()[i]).0 != k by {
            assert(entries[i].0 != k);
        }
        under_none(entries.drop_last(), k);
    }
}

proof fn keys_ok_prefix(entries: Seq<(KeyView, Seq<Id>)>)
    requires
        keys_ok(entries),
        entries.len() > 0,
    ensures
        keys_ok(entries.drop_last()),
{
    let e = entries.drop_last();
    assert forall|i: int| 0 <= i < e.len() implies (#[trigger] e[i]).0.ok() by {
        assert(entries[i].0.ok());
    }
    assert forall|i: int, j: int| 0 <= i < j < e.len() implies (#[trigger] e[i]).0.lt(
        (#[trigger] e[j]).0,
    ) by {
        assert(entries[i].0.lt(entries[j].0));
    }
}

/// An id comes out of a range exactly where it is filed under a key of the
/// range.
pub proof fn range_members(
    entries: Seq<(KeyView, Seq<Id>)>,
    lo: KeyBoundView,
    hi: KeyBoundView,
    id: Id,
)
    requires
        keys_ok(entries),
    ensures
        ids_within(entries, lo, hi).contains(id) <==> exists|k: KeyView|
            lo.from(k) && hi.upto(k) && #[trigger] under(entries, k).contains(id),
    decreases entries.len(),
{
    if entries.len() > 0 {
        let rest = entries.drop_last();
        let last = entries.last();
        keys_ok_prefix(entries);
        range_members(rest, lo, hi, id);
        let a = ids_within(rest, lo, hi);
        joined_members(a, last.1, id);
        if ids_within(entries, lo, hi).contains(id) {
            if a.contains(id) {
                let k = choose|k: KeyView|
                    lo.from(k) && hi.upto(k) && #[trigger] under(rest, k).contains(id);
                if k == last.0 {
                    assert forall|i: int| 0 <= i < rest.len() implies (#[trigger] rest[i]).0
                        != k by {
                        assert(entries[i].0.lt(entries[entries.len() - 1].0));
                        super::index_key::key_order_total(entries[i].0, last.0, last.0);
                    }
                    under_none(rest, k);
                }
                assert(under(entries, k).contains(id));
            } else {
                assert(under(entries, last.0).contains(id));
            }
        }
        if exists|k: KeyView|
            lo.from(k) && hi.upto(k) && #[trigger] under(entries, k).contains(id) {
            let k = choose|k: KeyView|
                lo.from(k) && hi.upto(k) && #[trigger] under(entries, k).contains(id);
            if k != last.0 {
                assert(under(rest, k).contains(id));
            }
        }
    }
}

proof fn joined_members(a: Seq<Id>, b: Seq<Id>, x: Id)
    ensures
        (a + b).contains(x) <==> a.contains(x) || b.contains(x),
{
    if a.contains(x) {
        let i = choose|i: int| 0 <= i < a.len() && a[i] == x;
        assert((a + b)[i] == x);
    }
    if b.contains(x) {
        let i = choose|i: int| 0 <= i < b.len() && b[i] == x;
        assert((a + b)[a.len() + i] == x);
    }
    if (a + b).contains(x) {
        let i = choose|i: int| 0 <= i < (a + b).len() && (a + b)[i] == x;
        if i < a.len() {
            assert(a[i] == x);
        } else {
            assert(b[i - a.len()] == x);
        }
    }
}

/// An id is filed under the key of its value.
pub proof fn filed_members(items: Seq<(Id, Option<KeyView>)>, k: KeyView, id: Id)
    ensures
        filed(items, k).contains(id) <==> items.contains((id, Some(k))),
    decreases items.len(),
{
    if items.len() > 0 {
        let rest = items.drop_last();
        filed_members(rest, k, id);
        let f = filed(rest, k);
        let (x, key) = items.last();
        assert(items =~= rest.push(items.last()));
        if filed(items, k).contains(id) {
            let i = choose|i: int| 0 <= i < filed(items, k).len() && filed(items, k)[i] == id;
            if i < f.len() {
                assert(f[i] == id);
                let j = choose|j: int| 0 <= j < rest.len() && rest[j] == (id, Some(k));
                assert(items[j] == (id, Some(k)));
            } else {
                assert(items[items.len() - 1] == (id, Some(k)));
            }
        }
        if items.contains((id, Some(k))) {
            let j = choose|j: int| 0 <= j < items.len() && items[j] == (id, Some(k));
            if j < rest.len() {
                assert(rest[j] == (id, Some(k)));
                let i = choose|i: int| 0 <= i < f.len() && f[i] == id;
                assert(filed(items, k)[i] == id);
            } else {
                assert(filed(items, k)[f.len() as int] == id);
            }
        }
    }
}

/// What stands under a key after one entry has been changed or put in.
proof fn under_put(
    was: Seq<(KeyView, Seq<Id>)>,
    now: Seq<(KeyView, Seq<Id>)>,
    pos: int,
    k: KeyView,
    ids: Seq<Id>,
    q: KeyView,
)
    requires
        keys_ok(was),
        keys_ok(now),
        0 <= pos < now.len(),
        now[pos] == (k, ids),
        now == was.update(pos, (k, ids)) && pos < was.len() && was[pos].0 == k || now
            == was.insert(pos, (k, ids)) && pos <= was.len(),
    ensures
        under(now, q) == (if q == k {
            ids
        } else {
            under(was, q)
        }),
{
    if q == k {
        under_entry(now, pos);
    } else {
        if exists|i: int| 0 <= i < was.len() && (#[trigger] was[i]).0 == q {
            let i = choose|i: int| 0 <= i < was.len() && (#[trigger] was[i]).0 == q;
            under_entry(was, i);
            let j = if now.len() == was.len() || i < pos {
                i
            } else {
                i + 1
            };
            assert(now[j] == was[i]);
            under_entry(now, j);
        } else {
            under_none(was, q);
            assert forall|j: int| 0 <= j < now.len() implies (#[trigger] now[j]).0 != q by {
                if j != pos {
                    let i = if now.len() == was.len() || j < pos {
                        j
                    } else {
                        j - 1
                    };
                    assert(now[j] == was[i]);
                }
            }
            under_none(now, q);
        }
    }
}

/// A list without an id.
pub open spec fn without(ids: Seq<Id>, id: Id) -> Seq<Id>
    decreases ids.len(),
{
    if ids.len() == 0 {
        Seq::empty()
    } else if ids.last() == id {
        without(ids.drop_last(), id)
    } else {
        without(ids.drop_last(), id).push(ids.last())
    }
}

/// A list that does not have the id stays as it is.
pub proof fn without_same(ids: Seq<Id>, id: Id)
    requires
        !ids.contains(id),
    ensures
        without(ids, id) == ids,
    decreases ids.len(),
{
    if ids.len() > 0 {
        assert(ids[ids.len() - 1] != id) by {
            assert(ids.contains(ids[ids.len() - 1]));
        }
        assert(!ids.drop_last().contains(id)) by {
            if ids.drop_last().contains(id) {
                let i = choose|i: int| 0 <= i < ids.drop_last().len() && ids.drop_last()[i] == id;
                assert(ids[i] == id);
            }
        }
        without_same(ids.drop_last(), id);
        assert(ids.drop_last().push(ids.last()) =~= ids);
    }
}

/// What is left of a list when an id is taken out.
pub proof fn without_members(ids: Seq<Id>, id: Id, x: Id)
    ensures
        without(ids, id).contains(x) <==> ids.contains(x) && x != id,
    decreases ids.len(),
{
    if ids.len() > 0 {
        let rest = ids.drop_last();
        without_members(rest, id, x);
        let w = without(rest, id);
        assert(ids =~= rest.push(ids.last()));
        joined_members(rest, seq![ids.last()], x);
        joined_members(w, seq![ids.last()], x);
        assert(rest + seq![ids.last()] =~= ids);
        assert(w + seq![ids.last()] =~= w.push(ids.last()));
        assert(seq![ids.last()].contains(x) <==> x == ids.last()) by {
            assert(seq![ids.last()][0] == ids.last());
        }
    }
}

/// What stands under a key after one entry has been taken out.
proof fn under_out(was: Seq<(KeyView, Seq<Id>)>, pos: int, q: KeyView)
    requires
        keys_ok(was),
        0 <= pos < was.len(),
    ensures
        keys_ok(was.remove(pos)),
        under(was.remove(pos), q) == (if q == was[pos].0 {
            Seq::empty()
        } else {
            under(was, q)
        }),
{
    let now = was.remove(pos);
    let k = was[pos].0;
    assert forall|i: int| 0 <= i < now.len() implies (#[trigger] now[i]).0.ok() by {
        let a = if i < pos {
            i
        } else {
            i + 1
        };
        assert(now[i] == was[a]);
    }
    assert forall|i: int, j: int| 0 <= i < j < now.len() implies (#[trigger] now[i]).0.lt(
        (#[trigger] now[j]).0,
    ) by {
        let a = if i < pos {
            i
        } else {
            i + 1
        };
        let b = if j < pos {
            j
        } else {
            j + 1
        };
        assert(now[i] == was[a]);
        assert(now[j] == was[b]);
        assert(was[a].0.lt(was[b].0));
    }
    if q == k {
        assert forall|j: int| 0 <= j < now.len() implies (#[trigger] now[j]).0 != q by {
            let a = if j < pos {
                j
            } else {
                j + 1
            };
            assert(now[j] == was[a]);
            super::index_key::key_order_total(was[a].0, k, k);
            if a < pos {
                assert(was[a].0.lt(was[pos].0));
            } else {
                assert(was[pos].0.lt(was[a].0));
            }
        }
        under_none(now, q);
    } else {
        if exists|i: int| 0 <= i < was.len() && (#[trigger] was[i]).0 == q {
            let i = choose|i: int| 0 <= i < was.len() && (#[trigger] was[i]).0 == q;
            under_entry(was, i);
            let j = if i < pos {
                i
            } else {
                i - 1
            };
            assert(now[j] == was[i]);
            under_entry(now, j);
        } else {
            under_none(was, q);
            assert forall|j: int| 0 <= j < now.len() implies (#[trigger] now[j]).0 != q by {
                let a = if j < pos {
                    j
                } else {
                    j + 1
                };
                assert(now[j] == was[a]);
            }
            under_none(now, q);
        }
    }
}

/// A list without an id.
fn list_without(ids: &Vec<Id>, id: Id) -> (r: Vec<Id>)
    ensures
        r@ == without(ids@, id),
{
    let mut out: Vec<Id> = Vec::new();
    let mut i: usize = 0;
    while i < ids.len()
        invariant
            i <= ids.len(),
            out@ == without(ids@.take(i as int), id),
        decreases ids.len() - i,
    {
        assert(ids@.take(i + 1).drop_last() =~= ids@.take(i as int));
        if ids[i] != id {
            out.push(ids[i]);
        }
        i = i + 1;
    }
    assert(ids@.take(i as int) =~= ids@);
    out
}

impl KeyMap {
    /// Takes an id from the list under a key.
    pub fn retract(&mut self, k: &IndexKey, id: Id)
        requires
            old(self).wf(),
            k@.ok(),
        ensures
            final(self).wf(),
            forall|q: KeyView| #[trigger]
                under(final(self)@, q) == (if q == k@ {
                    without(under(old(self)@, q), id)
                } else {
                    under(old(self)@, q)
                }),
    {
        let ghost was = self@;
        let (pos, found) = self.find(k);
        if !found {
            proof {
                assert forall|i: int| 0 <= i < was.len() implies (#[trigger] was[i]).0 != k@ by {
                    super::index_key::key_order_total(was[i].0, k@, k@);
                    if i < pos {
                        assert(was[i].0.lt(k@));
                    } else {
                        assert(k@.lt(was[i].0));
                    }
                }
                under_none(was, k@);
            }
            return;
        }
        proof {
            under_entry(was, pos as int);
        }
        let rest = list_without(&self.entries[pos].1, id);
        let ghost ids = rest@;
        if rest.len() == 0 {
            let _ = self.entries.remove(pos);
            proof {
                let now = self@;
                assert(now =~= was.remove(pos as int));
                assert forall|q: KeyView| #[trigger]
                    under(now, q) == (if q == k@ {
                        without(under(was, q), id)
                    } else {
                        under(was, q)
                    }) by {
                    under_out(was, pos as int, q);
                    assert(ids =~= Seq::<Id>::empty());
                }
                under_out(was, pos as int, k@);
                assert(lists_filled(now)) by {
                    assert forall|i: int| 0 <= i < now.len() implies (#[trigger] now[i]).1.len()
                        > 0 by {
                        let a = if i < pos {
                            i
                        } else {
                            i + 1
                        };
                        assert(now[i] == was[a]);
                    }
                }
            }
        } else {
            self.entries[pos].1 = rest;
            proof {
                let now = self@;
                assert(now =~= was.update(pos as int, (k@, ids)));
                assert(keys_ok(now)) by {
                    assert forall|i: int| 0 <= i < now.len() implies (#[trigger] now[i]).0.ok() by {
                        assert(now[i].0 == was[i].0);
                    }
                    assert forall|i: int, j: int| 0 <= i < j < now.len() implies (
                    #[trigger] now[i]).0.lt((#[trigger] now[j]).0) by {
                        assert(was[i].0.lt(was[j].0));
                        assert(now[i].0 == was[i].0 && now[j].0 == was[j].0);
                    }
                }
                assert(lists_filled(now)) by {
                    assert forall|i: int| 0 <= i < now.len() implies (#[trigger] now[i]).1.len()
                        > 0 by {
                        assert(was[i].1.len() > 0);
                    }
                }
                assert forall|q: KeyView| #[trigger]
                    under(now, q) == (if q == k@ {
                        without(under(was, q), id)
                    } else {
                        under(was, q)
                    }) by {
                    under_put(was, now, pos as int, k@, ids, q);
                }
            }
        }
    }

    /// The keys with their ids.
    pub open spec fn view(&self) -> Seq<(KeyView, Seq<Id>)> {
        Seq::new(self.entries@.len(), |i: int| (self.entries@[i].0@, self.entries@[i].1@))
    }

    /// Keys ascend and no list is empty.
    pub open spec fn wf(&self) -> bool {
        keys_ok(self@) && lists_filled(self@)
    }

    /// The map files these ids.
    pub open spec fn holds(&self, items: Seq<(Id, Option<KeyView>)>) -> bool {
        self.wf() && forall|k: KeyView| #[trigger] under(self@, k) == filed(items, k)
    }

    /// Without ids.
    pub fn new() -> (r: Self)
        ensures
            r@ == Seq::<(KeyView, Seq<Id>)>::empty(),
            r.wf(),
            r.holds(Seq::empty()),
    {
        let r = KeyMap { entries: Vec::new() };
        assert(r@ =~= Seq::<(KeyView, Seq<Id>)>::empty());
        r
    }

    /// Where a key stands, or would stand.
    fn find(&self, k: &IndexKey) -> (r: (usize, bool))
        requires
            self.wf(),
            k@.ok(),
        ensures
            r.0 <= self@.len(),
            r.1 ==> r.0 < self@.len() && self@[r.0 as int].0 == k@,
            forall|j: int| 0 <= j < r.0 ==> (#[trigger] self@[j]).0.lt(k@),
            !r.1 ==> forall|j: int| r.0 <= j < self@.len() ==> k@.lt((#[trigger] self@[j]).0),
    {
        let mut i: usize = 0;
        while i < self.entries.len()
            invariant
                i <= self.entries.len(),
                self.wf(),
                k@.ok(),
                forall|j: int| 0 <= j < i ==> (#[trigger] self@[j]).0.lt(k@),
            ensures
                i <= self.entries.len(),
                forall|j: int| 0 <= j < i ==> (#[trigger] self@[j]).0.lt(k@),
                i < self.entries.len() ==> !self@[i as int].0.lt(k@),
            decreases self.entries.len() - i,
        {
            assert(self@[i as int].0 == self.entries@[i as int].0@);
            if !self.entries[i].0.less(k) {
                break;
            }
            i = i + 1;
        }
        if i < self.entries.len() {
            let ghost e = self@[i as int].0;
            assert(e == self.entries@[i as int].0@ && e.ok());
            if self.entries[i].0.same(k) {
                return (i, true);
            }
            proof {
                super::index_key::key_order_total(e, k@, e);
                assert(k@.lt(e));
                assert forall|j: int| i <= j < self@.len() implies k@.lt(
                    (#[trigger] self@[j]).0,
                ) by {
                    if j > i {
                        assert(e.lt(self@[j].0));
                        super::index_key::key_order_total(k@, e, self@[j].0);
                    }
                }
            }
        }
        (i, false)
    }

    /// The ids under a key.
    pub fn get(&self, k: &IndexKey) -> (r: Vec<Id>)
        requires
            self.wf(),
            k@.ok(),
        ensures
            r@ == under(self@, k@),
    {
        let (pos, found) = self.find(k);
        if found {
            proof {
                under_entry(self@, pos as int);
            }
            super::io::copy_ids(&self.entries[pos].1)
        } else {
            proof {
                assert forall|i: int| 0 <= i < self@.len() implies (#[trigger] self@[i]).0
                    != k@ by {
                    super::index_key::key_order_total(self@[i].0, k@, k@);
                    if i < pos {
                        assert(self@[i].0.lt(k@));
                    } else {
                        assert(k@.lt(self@[i].0));
                    }
                }
                under_none(self@, k@);
            }
            Vec::new()
        }
    }

    /// Files an id behind those that are under the key.
    pub fn push(&mut self, k: IndexKey, id: Id)
        requires
            old(self).wf(),
            k@.ok(),
        ensures
            final(self).wf(),
            forall|q: KeyView| #[trigger]
                under(final(self)@, q) == (if q == k@ {
                    under(old(self)@, q).push(id)
                } else {
                    under(old(self)@, q)
                }),
    {
        let ghost was = self@;
        let ghost key = k@;
        let (pos, found) = self.find(&k);
        if found {
            proof {
                under_entry(was, pos as int);
            }
            self.entries[pos].1.push(id);
            proof {
                let now = self@;
                let ids = was[pos as int].1.push(id);
                assert(now =~= was.update(pos as int, (key, ids)));
                assert(keys_ok(now)) by {
                    assert forall|i: int| 0 <= i < now.len() implies (#[trigger] now[i]).0.ok() by {
                        assert(now[i].0 == was[i].0);
                    }
                    assert forall|i: int, j: int| 0 <= i < j < now.len() implies (
                    #[trigger] now[i]).0.lt((#[trigger] now[j]).0) by {
                        assert(was[i].0.lt(was[j].0));
                        assert(now[i].0 == was[i].0 && now[j].0 == was[j].0);
                    }
                }
                assert(lists_filled(now)) by {
                    assert forall|i: int| 0 <= i < now.len() implies (#[trigger] now[i]).1.len()
                        > 0 by {
                        assert(was[i].1.len() > 0);
                    }
                }
                assert forall|q: KeyView| #[trigger]
                    under(now, q) == (if q == key {
                        under(was, q).push(id)
                    } else {
                        under(was, q)
                    }) by {
                    under_put(was, now, pos as int, key, ids, q);
                }
            }
        } else {
            let mut ids: Vec<Id> = Vec::new();
            ids.push(id);
            self.entries.insert(pos, (k, ids));
            proof {
                let now = self@;
                let one = Seq::<Id>::empty().push(id);
                assert(now =~= was.insert(pos as int, (key, one)));
                assert(keys_ok(now)) by {
                    assert forall|i: int| 0 <= i < now.len() implies (#[trigger] now[i]).0.ok() by {
                        if i < pos {
                            assert(now[i] == was[i]);
                        } else if i > pos {
                            assert(now[i] == was[i - 1]);
                        }
                    }
                    assert forall|i: int, j: int| 0 <= i < j < now.len() implies (
                    #[trigger] now[i]).0.lt((#[trigger] now[j]).0) by {
                        let a = if i < pos {
                            i
                        } else {
                            i - 1
                        };
                        let b = if j < pos {
                            j
                        } else {
                            j - 1
                        };
                        if i != pos {
                            assert(now[i] == was[a]);
                        }
                        if j != pos {
                            assert(now[j] == was[b]);
                        }
                        if i != pos && j != pos {
                            assert(was[a].0.lt(was[b].0));
                        }
                    }
                }
                assert(lists_filled(now)) by {
                    assert forall|i: int| 0 <= i < now.len() implies (#[trigger] now[i]).1.len()
                        > 0 by {
                        if i < pos {
                            assert(now[i] == was[i]);
                        } else if i > pos {
                            assert(now[i] == was[i - 1]);
                        }
                    }
                }
                assert(under(was, key) == Seq::<Id>::empty()) by {
                    assert forall|i: int| 0 <= i < was.len() implies (#[trigger] was[i]).0 != key by {
                        super::index_key::key_order_total(was[i].0, key, key);
                        if i < pos {
                            assert(was[i].0.lt(key));
                        } else {
                            assert(key.lt(was[i].0));
                        }
                    }
                    under_none(was, key);
                }
                assert forall|q: KeyView| #[trigger]
                    under(now, q) == (if q == key {
                        under(was, q).push(id)
                    } else {
                        under(was, q)
                    }) by {
                    under_put(was, now, pos as int, key, one, q);
                }
            }
        }
    }

    /// Files an id under the key of its value, if it has one.
    pub(crate) fn file(&mut self, k: Option<IndexKey>, id: Id, Ghost(items): Ghost<
        Seq<(Id, Option<KeyView>)>,
    >)
        requires
            old(self).holds(items),
            k is Some ==> k->Some_0@.ok(),
        ensures
            final(self).holds(items.push((id, super::key_map::key_view(k)))),
    {
        let ghost more = items.push((id, key_view(k)));
        assert(more.drop_last() =~= items);
        match k {
            Some(key) => {
                self.push(key, id);
            },
            None => {},
        }
    }

    /// The ids whose key lies in a range, in the order of keys.
    pub fn range(&self, lo: &KeyBound, hi: &KeyBound) -> (r: Vec<Id>)
        requires
            self.wf(),
            lo@.ok(),
            hi@.ok(),
        ensures
            r@ == ids_within(self@, lo@, hi@),
    {
        let mut out: Vec<Id> = Vec::new();
        let mut i: usize = 0;
        while i < self.entries.len()
            invariant
                i <= self.entries.len(),
                self.wf(),
                lo@.ok(),
                hi@.ok(),
                out@ == ids_within(self@.take(i as int), lo@, hi@),
            decreases self.entries.len() - i,
        {
            assert(self@.take(i + 1).drop_last() =~= self@.take(i as int));
            assert(self@[i as int].0 == self.entries@[i as int].0@);
            if lo.admits_from(&self.entries[i].0) && hi.admits_upto(&self.entries[i].0) {
                let mut ids = super::io::copy_ids(&self.entries[i].1);
                out.append(&mut ids);
            }
            i = i + 1;
        }
        assert(self@.take(i as int) =~= self@);
        out
    }

    /// All ids, from the last key to the first.
    pub fn descending(&self) -> (r: Vec<Id>)
        ensures
            r@ == ids_descending(self@),
    {
        let mut out: Vec<Id> = Vec::new();
        let mut i: usize = self.entries.len();
        assert(self@.take(i as int) =~= self@);
        while i > 0
            invariant
                i <= self.entries.len(),
                out@ + ids_descending(self@.take(i as int)) == ids_descending(self@),
            decreases i,
        {
            i = i - 1;
            let ghost before = out@;
            assert(self@.take(i + 1).drop_last() =~= self@.take(i as int));
            let mut ids = super::io::copy_ids(&self.entries[i].1);
            out.append(&mut ids);
            assert(out@ + ids_descending(self@.take(i as int)) =~= before + ids_descending(
                self@.take(i + 1),
            ));
        }
        assert(out@ =~= out@ + ids_descending(self@.take(0)));
        out
    }

    /// A copy.
    pub fn copy(&self) -> (r: KeyMap)
        ensures
            r@ == self@,
    {
        let mut out: Vec<(IndexKey, Vec<Id>)> = Vec::new();
        let mut i: usize = 0;
        while i < self.entries.len()
            invariant
                i <= self.entries.len(),
                out@.len() == i,
                forall|j: int|
                    0 <= j < i ==> (#[trigger] out@[j]).0@ == self.entries@[j].0@ && out@[j].1@
                        == self.entries@[j].1@,
            decreases self.entries.len() - i,
        {
            out.push((self.entries[i].0.copy(), super::io::copy_ids(&self.entries[i].1)));
            i = i + 1;
        }
        let r = KeyMap { entries: out };
        assert(r@ =~= self@);
        r
    }
}

/// The value of an optional key.
pub open spec fn key_view(k: Option<IndexKey>) -> Option<KeyView> {
    match k {
        Some(key) => Some(key@),
        None => None,
    }
}

} // verus!
