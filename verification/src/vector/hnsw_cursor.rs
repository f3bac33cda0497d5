//! An unbounded best-first walk over layer 0 of a proximity graph.
//!
//! The walk keeps a lookahead: before it hands out the next row it has expanded
//! some number of rows more than it has handed out. The order is approximate,
//! and rows that no links lead to are never handed out.

use vstd::prelude::*;

use super::cursor::NnCursor;
use super::distance::ask;
use super::hnsw::Hnsw;
use super::hnsw_search::descend_to_query;
use super::ranking::place;
use crate::model::value::Id;

verus! {

/// The lookahead of a cursor that is given none.
pub const DEFAULT_EF_SEARCH: usize = 64;

/// A walk under way. The rows in both lists stand nearest first.
pub struct Walk {
    /// Rows discovered and not handed out.
    pub frontier: Seq<(u32, u32)>,
    /// Rows discovered and not expanded.
    pub pending: Seq<(u32, u32)>,
    pub discovered: Seq<bool>,
    pub expanded: Seq<bool>,
    pub expansions: int,
    pub emitted: int,
}

impl Walk {
    /// What decreases with every expansion.
    pub open spec fn unexpanded(self) -> nat {
        2 * super::hnsw_search::unseen(self.discovered) + self.pending.len()
    }

    /// The number of rows that can still be handed out.
    pub open spec fn unemitted(self) -> nat {
        super::hnsw_search::unseen(self.discovered) + self.frontier.len()
    }
}

/// A walk that discovered one more row.
pub open spec fn with_found(w: Walk, row: u32, d: u32) -> Walk {
    Walk {
        frontier: super::ranking::placed(w.frontier, (row, d)),
        pending: super::ranking::placed(w.pending, (row, d)),
        discovered: w.discovered.update(row as int, true),
        ..w
    }
}

/// A walk that came across a row.
pub open spec fn met(w: Walk, dist: Seq<u32>, n: u32) -> Walk {
    if n >= w.discovered.len() || w.discovered[n as int] {
        w
    } else {
        with_found(w, n, dist[n as int])
    }
}

/// A walk that came across some rows.
pub open spec fn met_all(w: Walk, dist: Seq<u32>, list: Seq<u32>) -> Walk
    decreases list.len(),
{
    if list.len() == 0 {
        w
    } else {
        met(met_all(w, dist, list.drop_last()), dist, list.last())
    }
}

/// A walk that expanded the nearest row not yet expanded, and whether there was
/// one.
pub open spec fn stepped(levels: Seq<Seq<Seq<u32>>>, dist: Seq<u32>, w: Walk) -> (Walk, bool)
    decreases w.pending.len(),
{
    if w.pending.len() == 0 {
        (w, false)
    } else {
        let row = w.pending[0].0;
        let popped = Walk { pending: w.pending.skip(1), ..w };
        if w.expanded[row as int] {
            stepped(levels, dist, popped)
        } else {
            let opened = Walk {
                expanded: w.expanded.update(row as int, true),
                expansions: w.expansions + 1,
                ..popped
            };
            (
                met_all(opened, dist, super::hnsw::neighbours_of(levels, row as int, 0)),
                true,
            )
        }
    }
}

/// Coming across rows keeps the counts.
pub proof fn met_counts(w: Walk, dist: Seq<u32>, list: Seq<u32>)
    ensures
        met_all(w, dist, list).unexpanded() <= w.unexpanded(),
        met_all(w, dist, list).unemitted() == w.unemitted(),
        met_all(w, dist, list).discovered.len() == w.discovered.len(),
        met_all(w, dist, list).expanded == w.expanded,
        met_all(w, dist, list).expansions == w.expansions,
        met_all(w, dist, list).emitted == w.emitted,
    decreases list.len(),
{
    if list.len() > 0 {
        met_counts(w, dist, list.drop_last());
        let v = met_all(w, dist, list.drop_last());
        let n = list.last();
        if n < v.discovered.len() && !v.discovered[n as int] {
            super::hnsw_search::unseen_step(v.discovered, n as int);
            super::hnsw_search::placed_len(v.frontier, (n, dist[n as int]));
            super::hnsw_search::placed_len(v.pending, (n, dist[n as int]));
        }
    }
}

/// Expanding a row keeps the counts.
pub proof fn stepped_counts(levels: Seq<Seq<Seq<u32>>>, dist: Seq<u32>, w: Walk)
    ensures
        stepped(levels, dist, w).0.unexpanded() <= w.unexpanded(),
        stepped(levels, dist, w).1 ==> stepped(levels, dist, w).0.unexpanded() < w.unexpanded(),
        stepped(levels, dist, w).0.unemitted() == w.unemitted(),
        stepped(levels, dist, w).0.emitted == w.emitted,
    decreases w.pending.len(),
{
    if w.pending.len() > 0 {
        let row = w.pending[0].0;
        let popped = Walk { pending: w.pending.skip(1), ..w };
        if w.expanded[row as int] {
            stepped_counts(levels, dist, popped);
        } else {
            let opened = Walk {
                expanded: w.expanded.update(row as int, true),
                expansions: w.expansions + 1,
                ..popped
            };
            met_counts(opened, dist, super::hnsw::neighbours_of(levels, row as int, 0));
        }
    }
}

/// A walk that has its lookahead, as far as there are rows to expand.
pub open spec fn advanced(
    levels: Seq<Seq<Seq<u32>>>,
    dist: Seq<u32>,
    ef: int,
    w: Walk,
) -> Walk
    decreases w.unexpanded(),
{
    if w.expansions < w.emitted + ef {
        let (v, more) = stepped(levels, dist, w);
        if more {
            proof {
                stepped_counts(levels, dist, w);
            }
            advanced(levels, dist, ef, v)
        } else {
            v
        }
    } else {
        w
    }
}

/// Gaining a lookahead keeps the rows to be handed out.
pub proof fn advanced_counts(levels: Seq<Seq<Seq<u32>>>, dist: Seq<u32>, ef: int, w: Walk)
    ensures
        advanced(levels, dist, ef, w).unemitted() == w.unemitted(),
        advanced(levels, dist, ef, w).emitted == w.emitted,
    decreases w.unexpanded(),
{
    if w.expansions < w.emitted + ef {
        let (v, more) = stepped(levels, dist, w);
        stepped_counts(levels, dist, w);
        if more {
            advanced_counts(levels, dist, ef, v);
        }
    }
}

/// Before a row is handed out, the walk has expanded as many rows as were
/// handed out and the lookahead more, or no row is left to expand.
pub proof fn lookahead_kept(levels: Seq<Seq<Seq<u32>>>, dist: Seq<u32>, ef: int, w: Walk)
    ensures
        advanced(levels, dist, ef, w).expansions >= w.emitted + ef || advanced(
            levels,
            dist,
            ef,
            w,
        ).pending.len() == 0,
    decreases w.unexpanded(),
{
    if w.expansions < w.emitted + ef {
        let (v, more) = stepped(levels, dist, w);
        stepped_counts(levels, dist, w);
        if more {
            lookahead_kept(levels, dist, ef, v);
        } else {
            stepped_out(levels, dist, w);
        }
    }
}

/// A walk that handed out its nearest row.
pub open spec fn emitted_one(w: Walk) -> Walk {
    Walk { frontier: w.frontier.skip(1), emitted: w.emitted + 1, ..w }
}

/// The rows that a walk hands out, with their distances.
pub open spec fn emissions(
    levels: Seq<Seq<Seq<u32>>>,
    dist: Seq<u32>,
    ef: int,
    w: Walk,
) -> Seq<(u32, u32)>
    decreases w.unemitted(),
{
    let v = advanced(levels, dist, ef, w);
    if v.frontier.len() == 0 {
        Seq::empty()
    } else {
        proof {
            advanced_counts(levels, dist, ef, w);
        }
        seq![v.frontier[0]] + emissions(levels, dist, ef, emitted_one(v))
    }
}

/// The rows discovered and not handed out are distinct, and have the distances
/// of a table.
pub open spec fn distinct(w: Walk, dist: Seq<u32>) -> bool {
    &&& forall|j: int, k: int|
        0 <= j < k < w.frontier.len() ==> (#[trigger] w.frontier[j]).0 != (
        #[trigger] w.frontier[k]).0
    &&& forall|j: int|
        0 <= j < w.frontier.len() ==> (#[trigger] w.frontier[j]).0 < w.discovered.len()
            && w.discovered[w.frontier[j].0 as int] && w.frontier[j].1
            == dist[w.frontier[j].0 as int]
    &&& super::ranking::ordered(w.frontier)
}

/// Discoveries only grow.
pub open spec fn grew(w: Walk, v: Walk) -> bool {
    &&& v.discovered.len() == w.discovered.len()
    &&& forall|i: int| 0 <= i < w.discovered.len() && w.discovered[i] ==> #[trigger] v.discovered[i]
    &&& forall|j: int|
        0 <= j < v.frontier.len() ==> w.frontier.contains(#[trigger] v.frontier[j])
            || !w.discovered[v.frontier[j].0 as int]
}

proof fn grew_further(w: Walk, v: Walk, u: Walk)
    requires
        grew(w, v),
        grew(v, u),
        forall|j: int| 0 <= j < u.frontier.len() ==> (#[trigger] u.frontier[j]).0 < w.discovered.len(),
    ensures
        grew(w, u),
{
    assert forall|i: int| 0 <= i < w.discovered.len() && w.discovered[i] implies
        #[trigger] u.discovered[i] by {
        assert(v.discovered[i]);
    }
    assert forall|j: int| 0 <= j < u.frontier.len() implies w.frontier.contains(
        #[trigger] u.frontier[j],
    ) || !w.discovered[u.frontier[j].0 as int] by {
        let e = u.frontier[j];
        if v.frontier.contains(e) {
            let k = choose|k: int| 0 <= k < v.frontier.len() && v.frontier[k] == e;
            assert(w.frontier.contains(v.frontier[k]) || !w.discovered[v.frontier[k].0 as int]);
        } else {
            assert(!v.discovered[e.0 as int]);
            if w.discovered[e.0 as int] {
                assert(v.discovered[e.0 as int]);
            }
        }
    }
}

proof fn met_distinct(w: Walk, dist: Seq<u32>, n: u32)
    requires
        distinct(w, dist),
    ensures
        distinct(met(w, dist, n), dist),
        grew(w, met(w, dist, n)),
{
    let v = met(w, dist, n);
    if n < w.discovered.len() && !w.discovered[n as int] {
        let x = (n, dist[n as int]);
        super::ranking::placed_ordered(w.frontier, x);
        broadcast use vstd::seq_lib::group_to_multiset_ensures;

        assert forall|j: int| 0 <= j < v.frontier.len() implies (
        #[trigger] v.frontier[j]).0 < v.discovered.len() && v.discovered[v.frontier[j].0 as int]
            && v.frontier[j].1 == dist[v.frontier[j].0 as int] by {
            if v.frontier[j] != x {
                let k = choose|k: int| 0 <= k < w.frontier.len() && w.frontier[k] == v.frontier[j];
                assert(w.discovered[w.frontier[k].0 as int]);
            }
        }
        // The list is the old one with the new row inserted.
        super::ranking::placed_insert(w.frontier, x);
        let p = choose|p: int|
            0 <= p <= w.frontier.len() && v.frontier == #[trigger] w.frontier.insert(p, x);
        assert forall|j: int, k: int| 0 <= j < k < v.frontier.len() implies (
        #[trigger] v.frontier[j]).0 != (#[trigger] v.frontier[k]).0 by {
            let a = if j < p {
                j
            } else {
                j - 1
            };
            let b = if k < p {
                k
            } else {
                k - 1
            };
            if j == p {
                assert(w.discovered[w.frontier[b].0 as int]);
            } else if k == p {
                assert(w.discovered[w.frontier[a].0 as int]);
            } else {
                assert(w.frontier[a].0 != w.frontier[b].0);
            }
        }
        assert forall|j: int| 0 <= j < v.frontier.len() implies w.frontier.contains(
            #[trigger] v.frontier[j],
        ) || !w.discovered[v.frontier[j].0 as int] by {}
    } else {
        assert forall|j: int| 0 <= j < v.frontier.len() implies w.frontier.contains(
            #[trigger] v.frontier[j],
        ) by {
            assert(w.frontier[j] == v.frontier[j]);
        }
    }
}

proof fn met_all_distinct(w: Walk, dist: Seq<u32>, list: Seq<u32>)
    requires
        distinct(w, dist),
    ensures
        distinct(met_all(w, dist, list), dist),
        grew(w, met_all(w, dist, list)),
    decreases list.len(),
{
    if list.len() > 0 {
        met_all_distinct(w, dist, list.drop_last());
        let v = met_all(w, dist, list.drop_last());
        met_distinct(v, dist, list.last());
        grew_further(w, v, met_all(w, dist, list));
    } else {
        assert forall|j: int| 0 <= j < w.frontier.len() implies w.frontier.contains(
            #[trigger] w.frontier[j],
        ) by {}
    }
}

proof fn stepped_distinct(levels: Seq<Seq<Seq<u32>>>, dist: Seq<u32>, w: Walk)
    requires
        distinct(w, dist),
    ensures
        distinct(stepped(levels, dist, w).0, dist),
        grew(w, stepped(levels, dist, w).0),
    decreases w.pending.len(),
{
    if w.pending.len() > 0 {
        let row = w.pending[0].0;
        let popped = Walk { pending: w.pending.skip(1), ..w };
        if w.expanded[row as int] {
            stepped_distinct(levels, dist, popped);
        } else {
            let opened = Walk {
                expanded: w.expanded.update(row as int, true),
                expansions: w.expansions + 1,
                ..popped
            };
            met_all_distinct(opened, dist, super::hnsw::neighbours_of(levels, row as int, 0));
        }
    } else {
        assert forall|j: int| 0 <= j < w.frontier.len() implies w.frontier.contains(
            #[trigger] w.frontier[j],
        ) by {}
    }
}

proof fn advanced_distinct(levels: Seq<Seq<Seq<u32>>>, dist: Seq<u32>, ef: int, w: Walk)
    requires
        distinct(w, dist),
    ensures
        distinct(advanced(levels, dist, ef, w), dist),
        grew(w, advanced(levels, dist, ef, w)),
    decreases w.unexpanded(),
{
    if w.expansions < w.emitted + ef {
        let (v, more) = stepped(levels, dist, w);
        stepped_counts(levels, dist, w);
        stepped_distinct(levels, dist, w);
        if more {
            advanced_distinct(levels, dist, ef, v);
            grew_further(w, v, advanced(levels, dist, ef, v));
        }
    } else {
        assert forall|j: int| 0 <= j < w.frontier.len() implies w.frontier.contains(
            #[trigger] w.frontier[j],
        ) by {}
    }
}

/// No row is handed out twice, and each comes with its own distance.
pub proof fn emissions_distinct(levels: Seq<Seq<Seq<u32>>>, dist: Seq<u32>, ef: int, w: Walk)
    requires
        distinct(w, dist),
    ensures
        ({
            let s = emissions(levels, dist, ef, w);
            &&& forall|j: int, k: int|
                0 <= j < k < s.len() ==> (#[trigger] s[j]).0 != (#[trigger] s[k]).0
            &&& forall|j: int|
                0 <= j < s.len() ==> (#[trigger] s[j]).0 < w.discovered.len() && s[j].1
                    == dist[s[j].0 as int] && (w.frontier.contains(s[j])
                    || !w.discovered[s[j].0 as int])
        }),
    decreases w.unemitted(),
{
    let v = advanced(levels, dist, ef, w);
    let s = emissions(levels, dist, ef, w);
    advanced_counts(levels, dist, ef, w);
    advanced_distinct(levels, dist, ef, w);
    if v.frontier.len() > 0 {
        let u = emitted_one(v);
        let e = v.frontier[0];
        assert forall|i: int, j: int| 0 <= i < j < u.frontier.len() implies !super::ranking::nearer(
            #[trigger] u.frontier[j],
            #[trigger] u.frontier[i],
        ) by {
            assert(!super::ranking::nearer(v.frontier[j + 1], v.frontier[i + 1]));
        }
        assert forall|j: int, k: int| 0 <= j < k < u.frontier.len() implies (
        #[trigger] u.frontier[j]).0 != (#[trigger] u.frontier[k]).0 by {
            assert(v.frontier[j + 1].0 != v.frontier[k + 1].0);
        }
        assert forall|j: int| 0 <= j < u.frontier.len() implies (
        #[trigger] u.frontier[j]).0 < u.discovered.len() && u.discovered[u.frontier[j].0 as int]
            && u.frontier[j].1 == dist[u.frontier[j].0 as int] by {
            assert(v.frontier[j + 1].0 < v.discovered.len());
        }
        emissions_distinct(levels, dist, ef, u);
        let t = emissions(levels, dist, ef, u);
        assert(s =~= seq![e] + t);
        assert forall|j: int, k: int| 0 <= j < k < s.len() implies (#[trigger] s[j]).0 != (
        #[trigger] s[k]).0 by {
            assert(s[k] == t[k - 1]);
            if j > 0 {
                assert(s[j] == t[j - 1]);
            } else {
                if u.frontier.contains(t[k - 1]) {
                    let p = choose|p: int|
                        0 <= p < u.frontier.len() && u.frontier[p] == t[k - 1];
                    assert(v.frontier[0].0 != v.frontier[p + 1].0);
                } else {
                    assert(v.discovered[v.frontier[0].0 as int]);
                }
            }
        }
        assert forall|j: int| 0 <= j < s.len() implies (#[trigger] s[j]).0 < w.discovered.len()
            && s[j].1 == dist[s[j].0 as int] && (w.frontier.contains(s[j])
            || !w.discovered[s[j].0 as int]) by {
            if j == 0 {
                assert(v.frontier[0].0 < v.discovered.len());
            } else {
                assert(s[j] == t[j - 1]);
                if u.frontier.contains(t[j - 1]) {
                    let p = choose|p: int|
                        0 <= p < u.frontier.len() && u.frontier[p] == t[j - 1];
                    assert(v.frontier[p + 1] == t[j - 1]);
                } else if w.discovered[s[j].0 as int] {
                    assert(v.discovered[s[j].0 as int]);
                }
            }
        }
    }
}

/// Where a walk down the upper layers ends.
pub open spec fn entered(
    levels: Seq<Seq<Seq<u32>>>,
    dist: Seq<u32>,
    at: (u32, u32),
    layer: int,
) -> (u32, u32)
    decreases layer,
{
    if layer <= 0 {
        at
    } else {
        entered(
            levels,
            dist,
            super::hnsw_search::descent(levels, layer, dist, at),
            layer - 1,
        )
    }
}

/// A walk that has discovered nothing.
pub open spec fn fresh(count: int) -> Walk {
    Walk {
        frontier: Seq::empty(),
        pending: Seq::empty(),
        discovered: Seq::new(count as nat, |i: int| false),
        expanded: Seq::new(count as nat, |i: int| false),
        expansions: 0,
        emitted: 0,
    }
}

/// The start of a walk: at the row where a descent from the entry point ends.
pub open spec fn begun(h: super::hnsw::HnswView, dist: Seq<u32>) -> Walk {
    let count = dist.len() as int;
    if count == 0 {
        fresh(0)
    } else {
        let entry = if h.entry >= count {
            0u32
        } else {
            h.entry
        };
        let at = entered(
            h.levels,
            dist,
            (entry, dist[entry as int]),
            super::hnsw::top_layer(h.levels),
        );
        with_found(fresh(count), at.0, at.1)
    }
}

/// A walk at its start has discovered at most one row.
pub proof fn begun_distinct(h: super::hnsw::HnswView, dist: Seq<u32>)
    requires
        super::hnsw::in_range(h.levels, dist.len() as int),
    ensures
        distinct(begun(h, dist), dist),
        begun(h, dist).frontier.len() == if dist.len() == 0 {
            0nat
        } else {
            1nat
        },
{
    if dist.len() > 0 {
        let entry = if h.entry >= dist.len() {
            0u32
        } else {
            h.entry
        };
        entered_in_range(
            h.levels,
            dist,
            (entry, dist[entry as int]),
            super::hnsw::top_layer(h.levels),
        );
    }
}

proof fn entered_in_range(
    levels: Seq<Seq<Seq<u32>>>,
    dist: Seq<u32>,
    at: (u32, u32),
    layer: int,
)
    requires
        super::hnsw::in_range(levels, dist.len() as int),
        at.0 < dist.len(),
        at.1 == dist[at.0 as int],
    ensures
        entered(levels, dist, at, layer).0 < dist.len(),
        entered(levels, dist, at, layer).1 == dist[entered(levels, dist, at, layer).0 as int],
    decreases layer,
{
    if layer > 0 {
        descent_in_range(levels, layer, dist, at);
        entered_in_range(
            levels,
            dist,
            super::hnsw_search::descent(levels, layer, dist, at),
            layer - 1,
        );
    }
}

proof fn descent_in_range(
    levels: Seq<Seq<Seq<u32>>>,
    layer: int,
    dist: Seq<u32>,
    at: (u32, u32),
)
    requires
        super::hnsw::in_range(levels, dist.len() as int),
        at.0 < dist.len(),
        at.1 == dist[at.0 as int],
    ensures
        super::hnsw_search::descent(levels, layer, dist, at).0 < dist.len(),
        super::hnsw_search::descent(levels, layer, dist, at).1
            == dist[super::hnsw_search::descent(levels, layer, dist, at).0 as int],
    decreases super::metric::number(at.1) + super::metric::SIGN,
{
    let list = super::hnsw::neighbours_of(levels, at.0 as int, layer);
    let next = super::hnsw_search::sweep(dist, list, at);
    super::hnsw_search::sweep_found(dist, list, at);
    if super::metric::less(next.1, at.1) {
        let k = choose|k: int| 0 <= k < list.len() && list[k] == next.0;
        assert(levels[at.0 as int][layer][k] < dist.len());
        descent_in_range(levels, layer, dist, next);
    }
}

/// A cursor over the rows of a proximity graph.
pub struct HnswCursor<'a, F> {
    pub ids: &'a [u32],
    pub hnsw: &'a Hnsw,
    pub dist: F,
    pub frontier: Vec<(u32, u32)>,
    pub pending: Vec<(u32, u32)>,
    pub discovered: Vec<bool>,
    pub expanded_rows: Vec<bool>,
    pub expansions: u64,
    pub emitted: u64,
    pub ef: usize,
}

/// The rows of a list are rows.
pub open spec fn rows_below(s: Seq<(u32, u32)>, count: int) -> bool {
    forall|k: int| 0 <= k < s.len() ==> (#[trigger] s[k]).0 < count
}

proof fn placed_below(s: Seq<(u32, u32)>, x: (u32, u32), count: int)
    requires
        super::ranking::ordered(s),
        rows_below(s, count),
        x.0 < count,
    ensures
        rows_below(super::ranking::placed(s, x), count),
{
    let t = super::ranking::placed(s, x);
    super::ranking::placed_ordered(s, x);
    assert forall|k: int| 0 <= k < t.len() implies (#[trigger] t[k]).0 < count by {
        if t[k] != x {
            let j = choose|j: int| 0 <= j < s.len() && s[j] == t[k];
            assert(s[j].0 < count);
        }
    }
}

proof fn skip_ordered(s: Seq<(u32, u32)>, count: int)
    requires
        super::ranking::ordered(s),
        rows_below(s, count),
        s.len() > 0,
    ensures
        super::ranking::ordered(s.skip(1)),
        rows_below(s.skip(1), count),
{
    let t = s.skip(1);
    assert forall|i: int, j: int| 0 <= i < j < t.len() implies !super::ranking::nearer(
        #[trigger] t[j],
        #[trigger] t[i],
    ) by {
        assert(!super::ranking::nearer(s[j + 1], s[i + 1]));
    }
    assert forall|k: int| 0 <= k < t.len() implies (#[trigger] t[k]).0 < count by {
        assert(s[k + 1].0 < count);
    }
}

proof fn all_unseen(v: Seq<bool>)
    requires
        forall|i: int| 0 <= i < v.len() ==> !#[trigger] v[i],
    ensures
        super::hnsw_search::unseen(v) == v.len(),
    decreases v.len(),
{
    if v.len() > 0 {
        assert(!v[v.len() - 1]);
        assert forall|i: int| 0 <= i < v.drop_last().len() implies !#[trigger] v.drop_last()[i] by {
            assert(!v[i]);
        }
        all_unseen(v.drop_last());
    }
}

impl<'a, F: Fn(usize) -> u32> HnswCursor<'a, F> {
    /// The walk under way.
    pub open spec fn walk(&self) -> Walk {
        Walk {
            frontier: self.frontier@,
            pending: self.pending@,
            discovered: self.discovered@,
            expanded: self.expanded_rows@,
            expansions: self.expansions as int,
            emitted: self.emitted as int,
        }
    }

    /// The number of rows.
    pub open spec fn count(&self) -> int {
        self.ids@.len() as int
    }

    /// The distances of the rows.
    pub open spec fn distances(&self) -> Seq<u32> {
        super::distance::table(self.dist, self.count())
    }

    /// The rows still to come.
    pub open spec fn rows(&self) -> Seq<(u32, u32)> {
        emissions(self.hnsw@.levels, self.distances(), self.ef as int, self.walk())
    }

    /// The parts of the cursor that no step changes are the same.
    pub open spec fn same_source(&self, other: &Self) -> bool {
        &&& self.ids == other.ids
        &&& self.hnsw == other.hnsw
        &&& self.dist == other.dist
        &&& self.ef == other.ef
    }

    /// What holds of the parts.
    pub open spec fn inv(&self) -> bool {
        let n = self.count();
        &&& super::distance::answers(self.dist, n)
        &&& super::hnsw::in_range(self.hnsw@.levels, n)
        &&& self.discovered@.len() == n
        &&& self.expanded_rows@.len() == n
        &&& super::ranking::ordered(self.frontier@)
        &&& super::ranking::ordered(self.pending@)
        &&& rows_below(self.frontier@, n)
        &&& rows_below(self.pending@, n)
        &&& self.emitted + self.walk().unemitted() == n
        &&& self.expansions + super::hnsw_search::unseen(self.expanded_rows@) == n
        &&& n <= usize::MAX
    }

    /// A cursor with the usual lookahead. A function answers the distance of
    /// each row.
    pub fn new(ids: &'a [u32], hnsw: &'a Hnsw, dist: F) -> (r: Self)
        requires
            super::distance::answers(dist, ids@.len() as int),
            super::hnsw::in_range(hnsw@.levels, ids@.len() as int),
        ensures
            r.wf(),
            r.ids == ids,
            r.hnsw == hnsw,
            r.dist == dist,
            r.ef == DEFAULT_EF_SEARCH,
            r.walk() == begun(hnsw@, super::distance::table(dist, ids@.len() as int)),
    {
        HnswCursor::with_ef(ids, hnsw, dist, DEFAULT_EF_SEARCH)
    }

    /// A cursor with a lookahead, of at least one row.
    pub fn with_ef(ids: &'a [u32], hnsw: &'a Hnsw, dist: F, ef: usize) -> (r: Self)
        requires
            super::distance::answers(dist, ids@.len() as int),
            super::hnsw::in_range(hnsw@.levels, ids@.len() as int),
        ensures
            r.wf(),
            r.ids == ids,
            r.hnsw == hnsw,
            r.dist == dist,
            r.ef == if ef < 1 {
                1
            } else {
                ef
            },
            r.walk() == begun(hnsw@, super::distance::table(dist, ids@.len() as int)),
    {
        let count = ids.len();
        let ghost n = ids@.len() as int;
        let ghost d = super::distance::table(dist, n);
        let mut discovered: Vec<bool> = Vec::new();
        let mut expanded_rows: Vec<bool> = Vec::new();
        let mut i: usize = 0;
        while i < count
            invariant
                i <= count,
                discovered@.len() == i,
                expanded_rows@.len() == i,
                forall|j: int| 0 <= j < i ==> !#[trigger] discovered@[j],
                forall|j: int| 0 <= j < i ==> !#[trigger] expanded_rows@[j],
            decreases count - i,
        {
            discovered.push(false);
            expanded_rows.push(false);
            i = i + 1;
        }
        proof {
            all_unseen(discovered@);
            all_unseen(expanded_rows@);
        }
        let mut cursor = HnswCursor {
            ids,
            hnsw,
            dist,
            frontier: Vec::new(),
            pending: Vec::new(),
            discovered,
            expanded_rows,
            expansions: 0,
            emitted: 0,
            ef: if ef < 1 {
                1
            } else {
                ef
            },
        };
        proof {
            assert(cursor.walk().discovered =~= fresh(n).discovered);
            assert(cursor.walk().expanded =~= fresh(n).expanded);
            assert(cursor.walk() == fresh(n));
        }
        if count == 0 {
            return cursor;
        }
        let entry: u32 = if hnsw.entry as usize >= count {
            0
        } else {
            hnsw.entry
        };
        let first = ask(&cursor.dist, entry as usize, Ghost(n));
        let mut at: (u32, u32) = (entry, first);
        let ghost start = at;
        let mut layer: usize = hnsw.max_level();
        let ghost top = layer as int;
        while layer > 0
            invariant
                n == ids@.len(),
                d == super::distance::table(cursor.dist, n),
                super::distance::answers(cursor.dist, n),
                super::hnsw::in_range(hnsw@.levels, n),
                at.0 < n,
                at.1 == d[at.0 as int],
                entered(hnsw@.levels, d, start, top) == entered(
                    hnsw@.levels,
                    d,
                    at,
                    layer as int,
                ),
            decreases layer,
        {
            at = descend_to_query(hnsw, &cursor.dist, at, layer, Ghost(n));
            layer = layer - 1;
        }
        cursor.discover(at.0, at.1);
        cursor
    }

    /// Notes a row that was not discovered before.
    fn discover(&mut self, row: u32, d: u32)
        requires
            old(self).inv(),
            row < old(self).count(),
            !old(self).discovered@[row as int],
        ensures
            final(self).inv(),
            final(self).same_source(old(self)),
            final(self).walk() == with_found(old(self).walk(), row, d),
    {
        proof {
            placed_below(self.frontier@, (row, d), self.count());
            placed_below(self.pending@, (row, d), self.count());
            super::hnsw_search::unseen_step(self.discovered@, row as int);
        }
        self.discovered.set(row as usize, true);
        place(&mut self.frontier, (row, d));
        place(&mut self.pending, (row, d));
    }

    /// Expands the nearest row not yet expanded, if there is one.
    fn expand_one(&mut self) -> (r: bool)
        requires
            old(self).inv(),
        ensures
            final(self).inv(),
            final(self).same_source(old(self)),
            (final(self).walk(), r) == stepped(
                old(self).hnsw@.levels,
                old(self).distances(),
                old(self).walk(),
            ),
    {
        let ghost first = *self;
        let ghost levels = self.hnsw@.levels;
        let ghost d = self.distances();
        while self.pending.len() > 0
            invariant
                self.inv(),
                self.same_source(&first),
                first == *old(self),
                levels == self.hnsw@.levels,
                d == self.distances(),
                stepped(levels, d, first.walk()) == stepped(levels, d, self.walk()),
            decreases self.pending@.len(),
        {
            let ghost w = self.walk();
            proof {
                skip_ordered(self.pending@, self.count());
                assert(self.pending@[0].0 < self.count());
            }
            let c = self.pending.remove(0);
            let ghost popped = Walk { pending: w.pending.skip(1), ..w };
            assert(self.pending@ =~= w.pending.skip(1));
            let row = c.0 as usize;
            if !self.expanded_rows[row] {
                proof {
                    super::hnsw_search::unseen_step(self.expanded_rows@, row as int);
                }
                self.expanded_rows.set(row, true);
                self.expansions = self.expansions + 1;
                let ghost opened = self.walk();
                let list = self.hnsw.neighbours(row, 0);
                let mut k: usize = 0;
                assert(list@.take(0) =~= Seq::empty());
                while k < list.len()
                    invariant
                        k <= list@.len(),
                        self.inv(),
                        self.same_source(&first),
                        levels == self.hnsw@.levels,
                        d == self.distances(),
                        list@ == super::hnsw::neighbours_of(levels, row as int, 0),
                        self.walk() == met_all(opened, d, list@.take(k as int)),
                    decreases list@.len() - k,
                {
                    assert(list@.take(k + 1).drop_last() =~= list@.take(k as int));
                    let n = list[k];
                    if (n as usize) < self.discovered.len() && !self.discovered[n as usize] {
                        let x = ask(&self.dist, n as usize, Ghost(self.count()));
                        self.discover(n, x);
                    }
                    k = k + 1;
                }
                assert(list@.take(k as int) =~= list@);
                return true;
            }
        }
        false
    }
}

impl<'a, F: Fn(usize) -> u32> NnCursor for HnswCursor<'a, F> {
    open spec fn wf(&self) -> bool {
        self.inv()
    }

    open spec fn rest(&self) -> Seq<(Id, u32)> {
        Seq::new(
            self.rows().len(),
            |k: int| (self.ids@[self.rows()[k].0 as int], self.rows()[k].1),
        )
    }

    open spec fn examined(&self) -> u64 {
        self.expansions
    }

    fn next(&mut self) -> (r: Option<(Id, u32)>)
        ensures
            final(self).same_source(old(self)),
            match r {
                Some(e) => old(self).rows().len() > 0 && e == (
                    old(self).ids@[old(self).rows()[0].0 as int],
                    old(self).rows()[0].1,
                ) && final(self).walk() == emitted_one(
                    advanced(
                        old(self).hnsw@.levels,
                        old(self).distances(),
                        old(self).ef as int,
                        old(self).walk(),
                    ),
                ),
                None => old(self).rows().len() == 0,
            },
    {
        let ghost first = *self;
        let ghost levels = self.hnsw@.levels;
        let ghost d = self.distances();
        let ghost ef = self.ef as int;
        let ghost end = advanced(levels, d, ef, self.walk());
        let mut more = true;
        while more && (self.expansions as u128) < self.emitted as u128 + self.ef as u128
            invariant
                self.inv(),
                self.same_source(&first),
                first == *old(self),
                levels == self.hnsw@.levels,
                d == self.distances(),
                ef == self.ef,
                more ==> end == advanced(levels, d, ef, self.walk()),
                !more ==> end == self.walk(),
            decreases
                    (if more {
                        self.walk().unexpanded() + 1
                    } else {
                        0
                    }),
        {
            proof {
                stepped_counts(levels, d, self.walk());
            }
            more = self.expand_one();
        }
        assert(end == self.walk());
        proof {
            advanced_counts(levels, d, ef, first.walk());
        }
        if self.frontier.len() == 0 {
            proof {
                let t = emissions(levels, d, ef, self.walk());
                advanced_again(levels, d, ef, first.walk());
                assert(self.rows().len() == 0);
            }
            return None;
        }
        proof {
            skip_ordered(self.frontier@, self.count());
            assert(self.frontier@[0].0 < self.count());
        }
        let ghost before = self.walk();
        let c = self.frontier.remove(0);
        assert(self.frontier@ =~= before.frontier.skip(1));
        self.emitted = self.emitted + 1;
        proof {
            assert(self.walk() == emitted_one(before));
            assert(first.rows() =~= seq![c] + self.rows());
            assert(self.rest() =~= first.rest().skip(1)) by {
                assert forall|k: int| 0 <= k < self.rest().len() implies self.rest()[k]
                    == first.rest().skip(1)[k] by {
                    assert(first.rows()[k + 1] == self.rows()[k]);
                }
            }
            assert(first.rows()[0] == c);
        }
        Some((self.ids[c.0 as usize], c.1))
    }

    fn expanded(&self) -> (r: u64) {
        self.expansions
    }
}

/// A walk that has its lookahead, or nothing left to expand, is not advanced
/// any more.
proof fn advanced_again(levels: Seq<Seq<Seq<u32>>>, dist: Seq<u32>, ef: int, w: Walk)
    ensures
        advanced(levels, dist, ef, advanced(levels, dist, ef, w)) == advanced(
            levels,
            dist,
            ef,
            w,
        ),
    decreases w.unexpanded(),
{
    if w.expansions < w.emitted + ef {
        let (v, more) = stepped(levels, dist, w);
        stepped_counts(levels, dist, w);
        if more {
            advanced_again(levels, dist, ef, v);
        } else {
            stepped_out(levels, dist, w);
        }
    }
}

/// Where no row could be expanded, none is left to expand.
proof fn stepped_out(levels: Seq<Seq<Seq<u32>>>, dist: Seq<u32>, w: Walk)
    requires
        !stepped(levels, dist, w).1,
    ensures
        stepped(levels, dist, w).0.pending.len() == 0,
        stepped(levels, dist, w).0.emitted == w.emitted,
    decreases w.pending.len(),
{
    if w.pending.len() > 0 {
        let row = w.pending[0].0;
        let popped = Walk { pending: w.pending.skip(1), ..w };
        if w.expanded[row as int] {
            stepped_out(levels, dist, popped);
        }
    }
}

} // verus!
