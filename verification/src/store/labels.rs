//! Which elements carry a label.

use vstd::prelude::*;

use crate::typing::label_type::LabelTypeView;

verus! {

/// An id as often as a number occurs in a list.
pub open spec fn occurrences(list: Seq<u32>, sid: u32, id: u32) -> Seq<u32>
    decreases list.len(),
{
    if list.len() == 0 {
        Seq::empty()
    } else {
        let rest = occurrences(list.drop_last(), sid, id);
        if list.last() == sid {
            rest.push(id)
        } else {
            rest
        }
    }
}

/// The positions of the lists that have a number in them.
pub open spec fn listed(lists: Seq<Seq<u32>>, sid: u32) -> Seq<u32>
    decreases lists.len(),
{
    if lists.len() == 0 {
        Seq::empty()
    } else {
        listed(lists.drop_last(), sid) + occurrences(
            lists.last(),
            sid,
            (lists.len() - 1) as u32,
        )
    }
}

/// An id as often as a label occurs in a list.
pub open spec fn label_occurrences(list: Seq<Seq<char>>, label: Seq<char>, id: u32) -> Seq<u32>
    decreases list.len(),
{
    if list.len() == 0 {
        Seq::empty()
    } else {
        let rest = label_occurrences(list.drop_last(), label, id);
        if list.last() == label {
            rest.push(id)
        } else {
            rest
        }
    }
}

/// The elements that carry a label, in order.
pub open spec fn labelled(labels: Seq<LabelTypeView>, label: Seq<char>) -> Seq<u32>
    decreases labels.len(),
{
    if labels.len() == 0 {
        Seq::empty()
    } else {
        labelled(labels.drop_last(), label) + label_occurrences(
            labels.last().required(),
            label,
            (labels.len() - 1) as u32,
        )
    }
}

/// An element is listed under a label exactly when it carries it.
pub proof fn labelled_elements(labels: Seq<LabelTypeView>, label: Seq<char>, id: u32)
    requires
        labels.len() <= u32::MAX,
    ensures
        labelled(labels, label).contains(id) <==> id < labels.len()
            && labels[id as int].required().contains(label),
    decreases labels.len(),
{
    if labels.len() > 0 {
        let rest = labels.drop_last();
        let last = (labels.len() - 1) as u32;
        labelled_elements(rest, label, id);
        occurrences_of(labels.last().required(), label, last, id);
        let a = labelled(rest, label);
        let b = label_occurrences(labels.last().required(), label, last);
        contains_either(a, b, id);
    }
}

/// Where no element has a label twice, no element is listed twice under a label.
pub proof fn labelled_once(labels: Seq<LabelTypeView>, label: Seq<char>)
    requires
        labels.len() <= u32::MAX,
        forall|i: int| 0 <= i < labels.len() ==> (#[trigger] labels[i]).required().no_duplicates(),
    ensures
        labelled(labels, label).no_duplicates(),
    decreases labels.len(),
{
    if labels.len() > 0 {
        let rest = labels.drop_last();
        let last = (labels.len() - 1) as u32;
        assert forall|i: int| 0 <= i < rest.len() implies (#[trigger] rest[i]).required().no_duplicates() by {
            assert(labels[i].required().no_duplicates());
        }
        labelled_once(rest, label);
        assert(labels[labels.len() - 1].required().no_duplicates());
        occurs_once(labels.last().required(), label, last);
        let a = labelled(rest, label);
        let b = label_occurrences(labels.last().required(), label, last);
        let all = a + b;
        assert forall|i: int, j: int| 0 <= i < all.len() && 0 <= j < all.len() && i
            != j implies all[i] != all[j] by {
            if i < a.len() && j < a.len() {
                assert(a[i] != a[j]);
            } else if i < a.len() {
                labelled_elements(rest, label, a[i]);
                assert(a.contains(a[i]));
                occurrences_of(labels.last().required(), label, last, b[j - a.len()]);
                assert(b.contains(b[j - a.len()]));
            } else {
                labelled_elements(rest, label, a[j]);
                assert(a.contains(a[j]));
                occurrences_of(labels.last().required(), label, last, b[i - a.len()]);
                assert(b.contains(b[i - a.len()]));
            }
        }
    }
}

proof fn occurs_once(list: Seq<Seq<char>>, label: Seq<char>, id: u32)
    requires
        list.no_duplicates(),
    ensures
        label_occurrences(list, label, id).len() <= 1,
    decreases list.len(),
{
    if list.len() > 0 {
        let rest = list.drop_last();
        occurs_once(rest, label, id);
        if list.last() == label {
            let had = label_occurrences(rest, label, id);
            occurrences_of(rest, label, id, id);
            if had.len() > 0 {
                occurrences_of(rest, label, id, had[0]);
                assert(had.contains(had[0]));
                let i = choose|i: int| 0 <= i < rest.len() && rest[i] == label;
                assert(list[i] == list[list.len() - 1]);
            }
        }
    }
}

proof fn contains_either(a: Seq<u32>, b: Seq<u32>, id: u32)
    ensures
        (a + b).contains(id) <==> a.contains(id) || b.contains(id),
{
    if a.contains(id) {
        let i = choose|i: int| 0 <= i < a.len() && a[i] == id;
        assert((a + b)[i] == id);
    }
    if b.contains(id) {
        let i = choose|i: int| 0 <= i < b.len() && b[i] == id;
        assert((a + b)[a.len() + i] == id);
    }
    if (a + b).contains(id) {
        let i = choose|i: int| 0 <= i < (a + b).len() && (a + b)[i] == id;
        if i < a.len() {
            assert(a[i] == id);
        } else {
            assert(b[i - a.len()] == id);
        }
    }
}

proof fn occurrences_of(list: Seq<Seq<char>>, label: Seq<char>, at: u32, id: u32)
    ensures
        label_occurrences(list, label, at).contains(id) <==> id == at && list.contains(label),
    decreases list.len(),
{
    if list.len() > 0 {
        let rest = list.drop_last();
        occurrences_of(rest, label, at, id);
        let a = label_occurrences(rest, label, at);
        if list.last() == label {
            assert(list[list.len() - 1] == label);
            assert(a.push(at)[a.len() as int] == at);
            if a.push(at).contains(id) {
                let i = choose|i: int| 0 <= i < a.push(at).len() && a.push(at)[i] == id;
                if i < a.len() {
                    assert(a[i] == id);
                }
            }
        } else {
            if list.contains(label) {
                let i = choose|i: int| 0 <= i < list.len() && list[i] == label;
                assert(rest[i] == label);
            }
            if rest.contains(label) {
                let i = choose|i: int| 0 <= i < rest.len() && rest[i] == label;
                assert(list[i] == label);
            }
        }
    }
}

/// With each string once, a number occurs where its string does.
proof fn occurrences_by_name(
    ids: Seq<u32>,
    strings: Seq<Seq<char>>,
    list: Seq<Seq<char>>,
    sid: u32,
    id: u32,
)
    requires
        strings.no_duplicates(),
        sid < strings.len(),
        super::values::resolve_ids(ids, strings) == Some(list),
    ensures
        occurrences(ids, sid, id) == label_occurrences(list, strings[sid as int], id),
    decreases ids.len(),
{
    if ids.len() > 0 {
        let rest = super::values::resolve_ids(ids.drop_last(), strings)->Some_0;
        assert(list == rest.push(strings[ids.last() as int]));
        assert(list.drop_last() =~= rest);
        occurrences_by_name(ids.drop_last(), strings, rest, sid, id);
    }
}

/// With each string once, the elements under a number are those that carry its
/// label.
pub proof fn listed_by_name(
    sids: Seq<Vec<u32>>,
    strings: Seq<Seq<char>>,
    labels: Seq<LabelTypeView>,
    sid: u32,
)
    requires
        strings.no_duplicates(),
        sid < strings.len(),
        super::writer::labels_known(sids, strings, labels),
    ensures
        listed(super::disk_index::list_views(sids), sid) == labelled(labels, strings[sid as int]),
    decreases sids.len(),
{
    let views = super::disk_index::list_views(sids);
    if sids.len() > 0 {
        let rest = sids.drop_last();
        assert forall|i: int| 0 <= i < rest.len() implies super::values::resolve_ids(
            (#[trigger] rest[i])@,
            strings,
        ) == Some(labels.drop_last()[i].required()) by {
            assert(rest[i] == sids[i]);
        }
        listed_by_name(rest, strings, labels.drop_last(), sid);
        assert(views.drop_last() =~= super::disk_index::list_views(rest));
        let last = sids[sids.len() - 1];
        assert(super::values::resolve_ids(last@, strings) == Some(
            labels[sids.len() - 1].required(),
        ));
        occurrences_by_name(
            last@,
            strings,
            labels.last().required(),
            sid,
            (sids.len() - 1) as u32,
        );
    }
}

/// A number that occurs is that of a string.
pub proof fn listed_in_range(
    sids: Seq<Vec<u32>>,
    strings: Seq<Seq<char>>,
    labels: Seq<LabelTypeView>,
    sid: u32,
)
    requires
        super::writer::labels_known(sids, strings, labels),
        listed(super::disk_index::list_views(sids), sid).len() > 0,
    ensures
        sid < strings.len(),
    decreases sids.len(),
{
    let views = super::disk_index::list_views(sids);
    let rest = sids.drop_last();
    let last = sids[sids.len() - 1];
    if occurrences(views.last(), sid, (views.len() - 1) as u32).len() > 0 {
        assert(super::values::resolve_ids(last@, strings) == Some(
            labels[sids.len() - 1].required(),
        ));
        occurrence_in_range(last@, strings, sid, (views.len() - 1) as u32);
    } else {
        assert forall|i: int| 0 <= i < rest.len() implies super::values::resolve_ids(
            (#[trigger] rest[i])@,
            strings,
        ) == Some(labels.drop_last()[i].required()) by {
            assert(rest[i] == sids[i]);
        }
        assert(views.drop_last() =~= super::disk_index::list_views(rest));
        listed_in_range(rest, strings, labels.drop_last(), sid);
    }
}

proof fn occurrence_in_range(ids: Seq<u32>, strings: Seq<Seq<char>>, sid: u32, id: u32)
    requires
        super::values::resolve_ids(ids, strings) is Some,
        occurrences(ids, sid, id).len() > 0,
    ensures
        sid < strings.len(),
    decreases ids.len(),
{
    if ids.last() != sid {
        occurrence_in_range(ids.drop_last(), strings, sid, id);
    }
}

/// What an index has under a number.
pub open spec fn under(entries: Seq<(u32, Seq<u32>)>, sid: u32) -> Seq<u32>
    decreases entries.len(),
{
    if entries.len() == 0 {
        Seq::empty()
    } else if entries.last().0 == sid {
        entries.last().1
    } else {
        under(entries.drop_last(), sid)
    }
}

/// No number stands twice in an index.
pub open spec fn distinct_keys(entries: Seq<(u32, Seq<u32>)>) -> bool {
    forall|i: int, j: int|
        0 <= i < j < entries.len() ==> (#[trigger] entries[i]).0 != (#[trigger] entries[j]).0
}

/// What an entry has is what the index has under its number.
pub proof fn under_entry(entries: Seq<(u32, Seq<u32>)>, i: int)
    requires
        distinct_keys(entries),
        0 <= i < entries.len(),
    ensures
        under(entries, entries[i].0) == entries[i].1,
    decreases entries.len(),
{
    if i < entries.len() - 1 {
        assert(entries[i].0 != entries[entries.len() - 1].0);
        let rest = entries.drop_last();
        assert(distinct_keys(rest)) by {
            assert forall|a: int, b: int| 0 <= a < b < rest.len() implies (#[trigger] rest[a]).0
                != (#[trigger] rest[b]).0 by {
                assert(entries[a].0 != entries[b].0);
            }
        }
        under_entry(rest, i);
    }
}

/// A number without an entry has nothing under it.
pub proof fn under_none(entries: Seq<(u32, Seq<u32>)>, sid: u32)
    requires
        forall|i: int| 0 <= i < entries.len() ==> (#[trigger] entries[i]).0 != sid,
    ensures
        under(entries, sid) == Seq::<u32>::empty(),
    decreases entries.len(),
{
    if entries.len() > 0 {
        let rest = entries.drop_last();
        assert(entries[entries.len() - 1].0 != sid);
        assert forall|i: int| 0 <= i < rest.len() implies (#[trigger] rest[i]).0 != sid by {
            assert(rest[i] == entries[i]);
        }
        under_none(rest, sid);
    }
}

/// How many ids stand in the lists.
spec fn entries_total(entries: Seq<(u32, Vec<u32>)>) -> nat {
    super::disk_index::total_len(
        super::disk_index::entry_lists(super::disk_index::id_entries(entries)),
    )
}

/// Puts an id under a number.
fn add_under(entries: &mut Vec<(u32, Vec<u32>)>, sid: u32, id: u32)
    requires
        distinct_keys(super::disk_index::id_entries(old(entries)@)),
        forall|i: int| 0 <= i < old(entries)@.len() ==> (#[trigger] old(entries)@[i]).1@.len() > 0,
    ensures
        distinct_keys(super::disk_index::id_entries(final(entries)@)),
        forall|i: int|
            0 <= i < final(entries)@.len() ==> (#[trigger] final(entries)@[i]).1@.len() > 0,
        under(super::disk_index::id_entries(final(entries)@), sid) == under(
            super::disk_index::id_entries(old(entries)@),
            sid,
        ).push(id),
        forall|x: u32|
            x != sid ==> #[trigger] under(super::disk_index::id_entries(final(entries)@), x)
                == under(super::disk_index::id_entries(old(entries)@), x),
        entries_total(final(entries)@) == entries_total(old(entries)@) + 1,
{
    let ghost before = super::disk_index::id_entries(entries@);
    let ghost raw = entries@;
    let mut i: usize = 0;
    while i < entries.len()
        invariant
            i <= entries.len(),
            raw == entries@,
            before == super::disk_index::id_entries(entries@),
            distinct_keys(before),
            forall|j: int| 0 <= j < i ==> (#[trigger] before[j]).0 != sid,
            raw == old(entries)@,
            forall|i: int| 0 <= i < raw.len() ==> (#[trigger] raw[i]).1@.len() > 0,
        decreases entries.len() - i,
    {
        assert(before[i as int].0 == entries@[i as int].0);
        if entries[i].0 == sid {
            let e = &mut entries[i];
            e.1.push(id);
            proof {
                let after = super::disk_index::id_entries(entries@);
                assert(after =~= before.update(i as int, (sid, before[i as int].1.push(id))));
                assert(distinct_keys(after)) by {
                    assert forall|a: int, b: int| 0 <= a < b < after.len() implies (
                    #[trigger] after[a]).0 != (#[trigger] after[b]).0 by {
                        assert(before[a].0 != before[b].0);
                    }
                }
                let lists = super::disk_index::entry_lists(before);
                let more = before[i as int].1.push(id);
                super::disk_index::total_len_update(lists, i as int, more);
                assert(super::disk_index::entry_lists(after) =~= lists.update(i as int, more));
                under_entry(before, i as int);
                under_entry(after, i as int);
                assert forall|x: u32| x != sid implies #[trigger] under(after, x) == under(
                    before,
                    x,
                ) by {
                    under_updated(before, i as int, before[i as int].1.push(id), x);
                }
                assert forall|j: int| 0 <= j < entries@.len() implies (#[trigger] entries@[j]).1@.len()
                    > 0 by {
                    if j != i {
                        assert(entries@[j] == raw[j]);
                    }
                }
            }
            return;
        }
        i = i + 1;
    }
    let mut list: Vec<u32> = Vec::new();
    list.push(id);
    entries.push((sid, list));
    proof {
        let after = super::disk_index::id_entries(entries@);
        assert(after =~= before.push((sid, seq![id])));
        assert(super::disk_index::entry_lists(after).drop_last()
            =~= super::disk_index::entry_lists(before));
        assert(after.drop_last() =~= before);
        under_none(before, sid);
        assert(Seq::<u32>::empty().push(id) =~= seq![id]);
        assert(distinct_keys(after)) by {
            assert forall|a: int, b: int| 0 <= a < b < after.len() implies (#[trigger] after[a]).0
                != (#[trigger] after[b]).0 by {
                if b < before.len() {
                    assert(before[a].0 != before[b].0);
                } else {
                    assert(before[a].0 != sid);
                }
            }
        }
    }
}

proof fn under_updated(entries: Seq<(u32, Seq<u32>)>, i: int, list: Seq<u32>, x: u32)
    requires
        0 <= i < entries.len(),
        entries[i].0 != x,
    ensures
        under(entries.update(i, (entries[i].0, list)), x) == under(entries, x),
    decreases entries.len(),
{
    let after = entries.update(i, (entries[i].0, list));
    if i < entries.len() - 1 {
        under_updated(entries.drop_last(), i, list, x);
        assert(after.drop_last() =~= entries.drop_last().update(i, (entries[i].0, list)));
    } else {
        assert(after.drop_last() =~= entries.drop_last());
    }
}

/// The index of the lists that have each number in them.
pub fn label_entries(lists: &Vec<Vec<u32>>) -> (r: Vec<(u32, Vec<u32>)>)
    requires
        lists@.len() <= u32::MAX,
    ensures
        distinct_keys(super::disk_index::id_entries(r@)),
        forall|i: int| 0 <= i < r@.len() ==> (#[trigger] r@[i]).1@.len() > 0,
        forall|sid: u32| #[trigger]
            under(super::disk_index::id_entries(r@), sid) == listed(
                super::disk_index::list_views(lists@),
                sid,
            ),
        super::disk_index::total_len(
            super::disk_index::entry_lists(super::disk_index::id_entries(r@)),
        ) == super::disk_index::total_len(super::disk_index::list_views(lists@)),
{
    let ghost views = super::disk_index::list_views(lists@);
    let mut out: Vec<(u32, Vec<u32>)> = Vec::new();
    let mut i: usize = 0;
    proof {
        assert(super::disk_index::id_entries(out@) =~= Seq::empty());
        assert forall|sid: u32| #[trigger]
            under(super::disk_index::id_entries(out@), sid) == listed(views.take(0), sid) by {
            under_none(super::disk_index::id_entries(out@), sid);
        }
    }
    while i < lists.len()
        invariant
            i <= lists.len() <= u32::MAX,
            views == super::disk_index::list_views(lists@),
            distinct_keys(super::disk_index::id_entries(out@)),
            forall|i: int| 0 <= i < out@.len() ==> (#[trigger] out@[i]).1@.len() > 0,
            forall|sid: u32| #[trigger]
                under(super::disk_index::id_entries(out@), sid) == listed(
                    views.take(i as int),
                    sid,
                ),
            entries_total(out@) == super::disk_index::total_len(views.take(i as int)),
        decreases lists.len() - i,
    {
        let list = &lists[i];
        let ghost before = views.take(i as int);
        let mut j: usize = 0;
        proof {
            assert(views[i as int] == list@);
            assert forall|sid: u32| #[trigger]
                under(super::disk_index::id_entries(out@), sid) == listed(before, sid)
                    + occurrences(list@.take(0), sid, i as u32) by {
                assert(listed(before, sid) + occurrences(list@.take(0), sid, i as u32) =~= listed(
                    before,
                    sid,
                ));
            }
        }
        while j < list.len()
            invariant
                j <= list.len(),
                i < lists.len() <= u32::MAX,
                distinct_keys(super::disk_index::id_entries(out@)),
                forall|i: int| 0 <= i < out@.len() ==> (#[trigger] out@[i]).1@.len() > 0,
                forall|sid: u32| #[trigger]
                    under(super::disk_index::id_entries(out@), sid) == listed(before, sid)
                        + occurrences(list@.take(j as int), sid, i as u32),
                entries_total(out@) == super::disk_index::total_len(before) + j,
            decreases list.len() - j,
        {
            let ghost old_entries = super::disk_index::id_entries(out@);
            add_under(&mut out, list[j], i as u32);
            proof {
                assert(list@.take(j + 1).drop_last() =~= list@.take(j as int));
                assert(list@.take(j + 1).last() == list@[j as int]);
                assert forall|sid: u32| #[trigger]
                    under(super::disk_index::id_entries(out@), sid) == listed(before, sid)
                        + occurrences(list@.take(j + 1), sid, i as u32) by {
                    assert(under(old_entries, sid) == listed(before, sid) + occurrences(
                        list@.take(j as int),
                        sid,
                        i as u32,
                    ));
                    if sid == list@[j as int] {
                        assert((listed(before, sid) + occurrences(
                            list@.take(j as int),
                            sid,
                            i as u32,
                        )).push(i as u32) =~= listed(before, sid) + occurrences(
                            list@.take(j + 1),
                            sid,
                            i as u32,
                        ));
                    }
                }
            }
            j = j + 1;
        }
        proof {
            assert(list@.take(j as int) =~= list@);
            assert(views.take(i + 1).drop_last() =~= before);
            assert(views.take(i + 1).last() == list@);
        }
        i = i + 1;
    }
    assert(views.take(i as int) =~= views);
    out
}

} // verus!
