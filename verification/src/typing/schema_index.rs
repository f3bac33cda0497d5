//! A label index over the entries of a schema.
//!
//! An entry whose label is built from single labels by conjunction and
//! disjunction is filed under each of these labels; any other entry can match
//! without sharing a label and is always looked at. A query of the same shape
//! then needs only the entries filed under its own labels, and the others.

use vstd::prelude::*;

use super::label_type::{LabelType, LabelTypeView};
use super::variable_type::{VariableType, VariableTypeView};
use crate::fields::FieldMap;

verus! {

impl LabelTypeView {
    /// Built from single labels by conjunction and disjunction alone.
    pub open spec fn positive(self) -> bool
        decreases self,
    {
        match self {
            LabelTypeView::Label(_) => true,
            LabelTypeView::And(a, b) => a.positive() && b.positive(),
            LabelTypeView::Or(a, b) => a.positive() && b.positive(),
            _ => false,
        }
    }

    /// The single labels of a positive label type.
    pub open spec fn leaves(self) -> Set<Seq<char>>
        decreases self,
    {
        match self {
            LabelTypeView::Label(s) => set![s],
            LabelTypeView::And(a, b) => a.leaves().union(b.leaves()),
            LabelTypeView::Or(a, b) => a.leaves().union(b.leaves()),
            _ => Set::empty(),
        }
    }

    /// A positive label type that entails another shares a label with it.
    pub proof fn entailment_shares_a_leaf(self, query: LabelTypeView)
        requires
            self.positive(),
            query.positive(),
            self.subtype(query),
        ensures
            exists|s: Seq<char>| #[trigger] self.leaves().contains(s) && query.leaves().contains(s),
        decreases self, query,
    {
        match (self, query) {
            (LabelTypeView::Label(a), LabelTypeView::Label(b)) => {
                assert(self.leaves().contains(a));
            },
            (_, LabelTypeView::And(a, b)) => {
                self.entailment_shares_a_leaf(*a);
                let s = choose|s: Seq<char>| #[trigger]
                    self.leaves().contains(s) && a.leaves().contains(s);
                assert(query.leaves().contains(s));
            },
            (LabelTypeView::And(a, b), _) => {
                if a.subtype(query) {
                    a.entailment_shares_a_leaf(query);
                    let s = choose|s: Seq<char>| #[trigger]
                        a.leaves().contains(s) && query.leaves().contains(s);
                    assert(self.leaves().contains(s));
                } else {
                    b.entailment_shares_a_leaf(query);
                    let s = choose|s: Seq<char>| #[trigger]
                        b.leaves().contains(s) && query.leaves().contains(s);
                    assert(self.leaves().contains(s));
                }
            },
            (_, LabelTypeView::Or(a, b)) => {
                if self.subtype(*a) {
                    self.entailment_shares_a_leaf(*a);
                    let s = choose|s: Seq<char>| #[trigger]
                        self.leaves().contains(s) && a.leaves().contains(s);
                    assert(query.leaves().contains(s));
                } else {
                    self.entailment_shares_a_leaf(*b);
                    let s = choose|s: Seq<char>| #[trigger]
                        self.leaves().contains(s) && b.leaves().contains(s);
                    assert(query.leaves().contains(s));
                }
            },
            _ => {},
        }
    }
}

/// Whether an entry may match a query with the given labels: it shares one of
/// them, or it is not filed under labels at all.
pub open spec fn is_candidate(entry: VariableTypeView, leaves: Set<Seq<char>>) -> bool {
    match entry.descriptor() {
        Some(d) => if d.label.positive() {
            exists|s: Seq<char>| #[trigger] d.label.leaves().contains(s) && leaves.contains(s)
        } else {
            true
        },
        None => true,
    }
}

/// The index, separately for node and edge entries.
#[derive(Debug)]
pub struct SchemaIndex {
    node_by_label: FieldMap<Vec<usize>>,
    node_fallback: Vec<usize>,
    edge_by_label: FieldMap<Vec<usize>>,
    edge_fallback: Vec<usize>,
}

/// The entry is filed under the label `s`.
spec fn filed(entry: VariableTypeView, s: Seq<char>) -> bool {
    &&& entry.descriptor() is Some
    &&& entry.descriptor()->0.label.positive()
    &&& entry.descriptor()->0.label.leaves().contains(s)
}

/// The entry is always looked at.
spec fn unfiled(entry: VariableTypeView) -> bool {
    entry.descriptor() is None || !entry.descriptor()->0.label.positive()
}

/// The list under `s` holds `i`.
spec fn listed(by: Map<Seq<char>, Vec<usize>>, s: Seq<char>, i: usize) -> bool {
    by.contains_key(s) && by[s]@.contains(i)
}

/// The lists hold exactly the entries that belong in them.
spec fn half_covers(
    by: Map<Seq<char>, Vec<usize>>,
    fallback: Seq<usize>,
    entries: Seq<VariableTypeView>,
) -> bool {
    &&& forall|i: usize|
        #![trigger fallback.contains(i)]
        fallback.contains(i) <==> i < entries.len() && unfiled(entries[i as int])
    &&& forall|s: Seq<char>, i: usize|
        #[trigger] listed(by, s, i) <==> i < entries.len() && filed(entries[i as int], s)
}

/// The contents of the strings.
spec fn text_set(v: Seq<&str>) -> Set<Seq<char>> {
    Set::new(|s: Seq<char>| exists|i: int| 0 <= i < v.len() && (#[trigger] v[i])@ == s)
}

/// Collects the single labels of a positive label type; `false` for any other.
fn leaf_labels<'a>(l: &'a LabelType, out: &mut Vec<&'a str>) -> (r: bool)
    ensures
        r == l@.positive(),
        r ==> text_set(final(out)@) == text_set(old(out)@).union(l@.leaves()),
    decreases l,
{
    let ghost before = out@;
    match l {
        LabelType::Label(s) => {
            out.push(s.as_str());
            proof {
                assert forall|t: Seq<char>|
                    text_set(out@).contains(t) <==> text_set(before).union(l@.leaves()).contains(
                        t,
                    ) by {
                    if text_set(before).contains(t) {
                        let i = choose|i: int|
                            0 <= i < before.len() && (#[trigger] before[i])@ == t;
                        assert(out@[i]@ == t);
                    }
                    assert(out@[before.len() as int]@ == s@);
                    if text_set(out@).contains(t) {
                        let i = choose|i: int| 0 <= i < out@.len() && (#[trigger] out@[i])@ == t;
                        if i < before.len() {
                            assert(before[i]@ == t);
                        }
                    }
                }
                assert(text_set(out@) =~= text_set(before).union(l@.leaves()));
            }
            true
        },
        LabelType::And(a, b) => {
            let r = leaf_labels(a, out) && leaf_labels(b, out);
            assert(r ==> text_set(out@) =~= text_set(before).union(l@.leaves()));
            r
        },
        LabelType::Or(a, b) => {
            let r = leaf_labels(a, out) && leaf_labels(b, out);
            assert(r ==> text_set(out@) =~= text_set(before).union(l@.leaves()));
            r
        },
        LabelType::Star => false,
        LabelType::Top => false,
        LabelType::Empty => false,
        LabelType::Neg(_) => false,
    }
}

/// Files every entry.
fn classify(entries: &Vec<VariableType>) -> (r: (FieldMap<Vec<usize>>, Vec<usize>))
    ensures
        half_covers(r.0@, r.1@, super::variable_type::type_views(entries@)),
{
    let ghost views = super::variable_type::type_views(entries@);
    let mut by: FieldMap<Vec<usize>> = FieldMap::new();
    let mut fallback: Vec<usize> = Vec::new();
    let mut i: usize = 0;
    while i < entries.len()
        invariant
            i <= entries.len(),
            views == super::variable_type::type_views(entries@),
            half_covers(by@, fallback@, views.take(i as int)),
        decreases entries.len() - i,
    {
        let ghost now = views.take(i as int);
        let ghost next = views.take(i + 1);
        let ghost old_fallback = fallback@;
        assert(next =~= now.push(entries[i as int]@));
        let mut leaves: Vec<&str> = Vec::new();
        let positive = match entries[i].descriptor() {
            Some(d) => leaf_labels(&d.label, &mut leaves),
            None => false,
        };
        if positive {
            let ghost before = by@;
            let ghost labels = text_set(leaves@);
            assert(labels =~= entries[i as int]@.descriptor()->0.label.leaves());
            let mut j: usize = 0;
            while j < leaves.len()
                invariant
                    j <= leaves.len(),
                    forall|s: Seq<char>, p: usize|
                        #[trigger] listed(by@, s, p) <==> listed(before, s, p) || (p == i && text_set(
                            leaves@.take(j as int),
                        ).contains(s)),
                decreases leaves.len() - j,
            {
                let label = leaves[j];
                let ghost cur = by@;
                let mut list = match by.remove(label) {
                    Some(v) => v,
                    None => Vec::new(),
                };
                let ghost held = list@;
                list.push(i);
                by.insert(crate::text::copy_text(label), list);
                proof {
                    let a = leaves@.take(j as int);
                    let b = leaves@.take(j + 1);
                    assert forall|s: Seq<char>| text_set(b).contains(s) <==> text_set(a).contains(
                        s,
                    ) || s == label@ by {
                        if text_set(a).contains(s) {
                            let q = choose|q: int| 0 <= q < a.len() && (#[trigger] a[q])@ == s;
                            assert(b[q]@ == s);
                        }
                        assert(b[j as int]@ == label@);
                        if text_set(b).contains(s) {
                            let q = choose|q: int| 0 <= q < b.len() && (#[trigger] b[q])@ == s;
                            if q < j {
                                assert(a[q]@ == s);
                            }
                        }
                    }
                    assert forall|s: Seq<char>, p: usize|
                        #[trigger] listed(by@, s, p) <==> listed(before, s, p) || (p == i && text_set(b).contains(s)) by {
                        if s == label@ {
                            assert(by@[s]@ == held.push(i));
                            assert(held.push(i)[held.len() as int] == i);
                            if held.contains(p) {
                                let q = choose|q: int| 0 <= q < held.len() && held[q] == p;
                                assert(held.push(i)[q] == p);
                            }
                            if held.push(i).contains(p) && p != i {
                                let q = choose|q: int|
                                    0 <= q < held.push(i).len() && held.push(i)[q] == p;
                                assert(held[q] == p);
                            }
                            assert(held.contains(p) <==> listed(cur, s, p));
                        } else {
                            assert(listed(cur, s, p) == listed(by@, s, p));
                        }
                    }
                }
                j = j + 1;
            }
            proof {
                assert(leaves@.take(leaves@.len() as int) =~= leaves@);
                assert forall|s: Seq<char>, p: usize|
                    #[trigger] listed(by@, s, p) <==> p < next.len() && filed(
                        next[p as int],
                        s,
                    ) by {
                    if p < i {
                        assert(next[p as int] == now[p as int]);
                    }
                    assert(listed(before, s, p) <==> p < now.len()
                        && filed(now[p as int], s));
                }
                assert forall|p: usize| #[trigger] fallback@.contains(p) <==> p < next.len()
                    && unfiled(next[p as int]) by {
                    if p < i {
                        assert(next[p as int] == now[p as int]);
                    }
                }
            }
        } else {
            fallback.push(i);
            proof {
                assert forall|p: usize| #[trigger] fallback@.contains(p) <==> p < next.len()
                    && unfiled(next[p as int]) by {
                    assert(fallback@[old_fallback.len() as int] == i);
                    if old_fallback.contains(p) {
                        let q = choose|q: int| 0 <= q < old_fallback.len() && old_fallback[q] == p;
                        assert(fallback@[q] == p);
                    }
                    if fallback@.contains(p) && p != i {
                        let q = choose|q: int| 0 <= q < fallback@.len() && fallback@[q] == p;
                        assert(old_fallback[q] == p);
                    }
                    if p < i {
                        assert(next[p as int] == now[p as int]);
                    }
                }
                assert forall|s: Seq<char>, p: usize|
                    #[trigger] listed(by@, s, p) <==> p < next.len() && filed(
                        next[p as int],
                        s,
                    ) by {
                    if p < i {
                        assert(next[p as int] == now[p as int]);
                    }
                }
            }
        }
        i = i + 1;
    }
    assert(views.take(i as int) =~= views);
    (by, fallback)
}

/// Numbers in strictly ascending order.
pub open spec fn increasing(v: Seq<usize>) -> bool {
    forall|i: int, j: int| 0 <= i < j < v.len() ==> #[trigger] v[i] < #[trigger] v[j]
}

/// Adds `x` to an ascending list, where it is not there yet.
fn add_in_order(v: &mut Vec<usize>, x: usize)
    requires
        increasing(old(v)@),
    ensures
        increasing(final(v)@),
        forall|y: usize| #[trigger] final(v)@.contains(y) <==> old(v)@.contains(y) || y == x,
{
    let mut n: usize = 0;
    while n < v.len() && v[n] < x
        invariant
            n <= v@.len(),
            v@ == old(v)@,
            increasing(v@),
            forall|i: int| 0 <= i < n ==> #[trigger] v@[i] < x,
        decreases v@.len() - n,
    {
        n = n + 1;
    }
    let ghost s = v@;
    if n < v.len() && v[n] == x {
        assert(s[n as int] == x);
    } else {
        v.insert(n, x);
        proof {
            let t = v@;
            assert forall|i: int, j: int| 0 <= i < j < t.len() implies #[trigger] t[i]
                < #[trigger] t[j] by {
                let a = if i < n { i } else { i - 1 };
                let b = if j < n { j } else { j - 1 };
                if i != n {
                    assert(s[a] == t[i]);
                }
                if j != n {
                    assert(s[b] == t[j]);
                }
                if j == n {
                    assert(s[a] < x);
                } else if i == n {
                    assert(s[n as int] > x);
                    assert(s[n as int] <= s[b]);
                }
            }
            assert forall|y: usize| #[trigger] t.contains(y) <==> s.contains(y) || y == x by {
                assert(t[n as int] == x);
                if s.contains(y) {
                    let q = choose|q: int| 0 <= q < s.len() && s[q] == y;
                    let p = if q < n { q } else { q + 1 };
                    assert(t[p] == y);
                }
                if t.contains(y) && y != x {
                    let q = choose|q: int| 0 <= q < t.len() && t[q] == y;
                    let p = if q < n { q } else { q - 1 };
                    assert(s[p] == y);
                }
            }
        }
    }
}

/// Adds every number of `list` to an ascending list.
fn add_all_in_order(v: &mut Vec<usize>, list: &Vec<usize>)
    requires
        increasing(old(v)@),
    ensures
        increasing(final(v)@),
        forall|y: usize| #[trigger]
            final(v)@.contains(y) <==> old(v)@.contains(y) || list@.contains(y),
{
    let mut i: usize = 0;
    while i < list.len()
        invariant
            i <= list@.len(),
            increasing(v@),
            forall|y: usize| #[trigger]
                v@.contains(y) <==> old(v)@.contains(y) || list@.take(i as int).contains(y),
        decreases list@.len() - i,
    {
        add_in_order(v, list[i]);
        proof {
            let a = list@.take(i as int);
            let b = list@.take(i + 1);
            assert forall|y: usize| b.contains(y) <==> a.contains(y) || y == list@[i as int] by {
                assert(b[i as int] == list@[i as int]);
                if a.contains(y) {
                    let q = choose|q: int| 0 <= q < a.len() && a[q] == y;
                    assert(b[q] == y);
                }
                if b.contains(y) {
                    let q = choose|q: int| 0 <= q < b.len() && b[q] == y;
                    if q < i {
                        assert(a[q] == y);
                    }
                }
            }
        }
        i = i + 1;
    }
    assert(list@.take(i as int) =~= list@);
}

impl SchemaIndex {
    /// The index files exactly these entries.
    pub closed spec fn covers(
        self,
        nodes: Seq<VariableTypeView>,
        edges: Seq<VariableTypeView>,
    ) -> bool {
        &&& half_covers(self.node_by_label@, self.node_fallback@, nodes)
        &&& half_covers(self.edge_by_label@, self.edge_fallback@, edges)
    }

    /// The index of a schema's entries.
    pub(crate) fn build(nodes: &Vec<VariableType>, edges: &Vec<VariableType>) -> (r: Self)
        ensures
            r.covers(
                super::variable_type::type_views(nodes@),
                super::variable_type::type_views(edges@),
            ),
    {
        let (node_by_label, node_fallback) = classify(nodes);
        let (edge_by_label, edge_fallback) = classify(edges);
        SchemaIndex { node_by_label, node_fallback, edge_by_label, edge_fallback }
    }

    /// The entries that may match a query with the given label, in ascending
    /// order, or `None` where the label cannot be looked up.
    pub(crate) fn candidates(
        &self,
        nodes: bool,
        query: &LabelType,
        Ghost(node_views): Ghost<Seq<VariableTypeView>>,
        Ghost(edge_views): Ghost<Seq<VariableTypeView>>,
    ) -> (r: Option<Vec<usize>>)
        requires
            self.covers(node_views, edge_views),
        ensures
            match r {
                None => !query@.positive(),
                Some(ids) => {
                    let entries = if nodes {
                        node_views
                    } else {
                        edge_views
                    };
                    &&& query@.positive()
                    &&& increasing(ids@)
                    &&& forall|i: usize| #[trigger]
                        ids@.contains(i) <==> i < entries.len() && is_candidate(
                            entries[i as int],
                            query@.leaves(),
                        )
                },
            },
    {
        let mut leaves: Vec<&str> = Vec::new();
        if !leaf_labels(query, &mut leaves) {
            return None;
        }
        assert(text_set(leaves@) =~= query@.leaves());
        let by = if nodes {
            &self.node_by_label
        } else {
            &self.edge_by_label
        };
        let fallback = if nodes {
            &self.node_fallback
        } else {
            &self.edge_fallback
        };
        let ghost entries = if nodes {
            node_views
        } else {
            edge_views
        };
        let mut out: Vec<usize> = Vec::new();
        add_all_in_order(&mut out, fallback);
        let mut j: usize = 0;
        while j < leaves.len()
            invariant
                j <= leaves.len(),
                increasing(out@),
                half_covers(by@, fallback@, entries),
                forall|i: usize| #[trigger]
                    out@.contains(i) <==> i < entries.len() && (unfiled(entries[i as int])
                        || exists|p: int|
                        0 <= p < j && filed(entries[i as int], (#[trigger] leaves@[p])@)),
            decreases leaves.len() - j,
        {
            let ghost before = out@;
            let label = leaves[j];
            match by.get(label) {
                Some(list) => {
                    add_all_in_order(&mut out, list);
                    assert(forall|i: usize| #[trigger]
                        list@.contains(i) ==> by@[label@]@.contains(i));
                },
                None => {},
            }
            proof {
                assert forall|i: usize| #[trigger] out@.contains(i) <==> i < entries.len() && (
                unfiled(entries[i as int]) || exists|p: int|
                    0 <= p < j + 1 && filed(entries[i as int], (#[trigger] leaves@[p])@)) by {
                    assert(listed(by@, label@, i) <==> i < entries.len() && filed(
                        entries[i as int],
                        label@,
                    ));
                    assert(before.contains(i) <==> i < entries.len() && (unfiled(
                        entries[i as int],
                    ) || exists|p: int|
                        0 <= p < j && filed(entries[i as int], (#[trigger] leaves@[p])@)));
                    assert(leaves@[j as int]@ == label@);
                }
            }
            j = j + 1;
        }
        proof {
            assert forall|i: usize| #[trigger] out@.contains(i) <==> i < entries.len()
                && is_candidate(entries[i as int], query@.leaves()) by {
                if i < entries.len() && !unfiled(entries[i as int]) {
                    let e = entries[i as int];
                    let ls = e.descriptor()->0.label.leaves();
                    if is_candidate(e, query@.leaves()) {
                        let s = choose|s: Seq<char>| #[trigger]
                            ls.contains(s) && query@.leaves().contains(s);
                        assert(text_set(leaves@).contains(s));
                        let p = choose|p: int| 0 <= p < leaves@.len() && (#[trigger] leaves@[p])@
                            == s;
                        assert(filed(e, leaves@[p]@));
                    }
                    if out@.contains(i) {
                        let p = choose|p: int|
                            0 <= p < j && filed(e, (#[trigger] leaves@[p])@);
                        assert(text_set(leaves@).contains(leaves@[p]@));
                        assert(ls.contains(leaves@[p]@) && query@.leaves().contains(leaves@[p]@));
                    }
                }
            }
        }
        Some(out)
    }
}

/// An entry that matches a query with a positive label is a candidate for it:
/// looking at the candidates alone loses no match.
pub proof fn candidates_lose_no_match(entry: VariableTypeView, query: VariableTypeView)
    requires
        query is Node || query is EdgeDirectional || query is EdgeNonDirectional,
        query.descriptor()->0.label.positive(),
        entry.subtype(query),
    ensures
        is_candidate(entry, query.descriptor()->0.label.leaves()),
{
    if let Some(d) = entry.descriptor() {
        if d.label.positive() {
            d.label.entailment_shares_a_leaf(query.descriptor()->0.label);
        }
    }
}

} // verus!
