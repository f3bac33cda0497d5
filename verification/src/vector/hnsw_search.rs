//! Walks through a proximity graph: downhill to a row with no nearer neighbour,
//! and best-first to the rows nearest to a target.

use vstd::prelude::*;

use super::distance::{ask, ask_pair};
use super::hnsw::Hnsw;
use super::metric::is_less;
use super::ranking::place;

verus! {

/// The nearest so far, after some more rows were looked at.
pub open spec fn sweep(dist: Seq<u32>, list: Seq<u32>, at: (u32, u32)) -> (u32, u32)
    decreases list.len(),
{
    if list.len() == 0 {
        at
    } else {
        let so_far = sweep(dist, list.drop_last(), at);
        let n = list.last();
        if super::metric::less(dist[n as int], so_far.1) {
            (n, dist[n as int])
        } else {
            so_far
        }
    }
}

/// A sweep either finds nothing nearer or a row of the list.
pub proof fn sweep_found(dist: Seq<u32>, list: Seq<u32>, at: (u32, u32))
    ensures
        sweep(dist, list, at) == at || (super::metric::less(sweep(dist, list, at).1, at.1)
            && list.contains(sweep(dist, list, at).0) && sweep(dist, list, at).1 == dist[sweep(
            dist,
            list,
            at,
        ).0 as int]),
    decreases list.len(),
{
    if list.len() > 0 {
        let u = list.drop_last();
        sweep_found(dist, u, at);
        let so_far = sweep(dist, u, at);
        let n = list.last();
        if super::metric::less(dist[n as int], so_far.1) {
            assert(list[list.len() - 1] == n);
        } else if so_far != at {
            let k = choose|k: int| 0 <= k < u.len() && u[k] == so_far.0;
            assert(list[k] == so_far.0);
        }
    }
}

/// Where a walk downhill ends, from a row and its distance.
pub open spec fn descent(
    levels: Seq<Seq<Seq<u32>>>,
    layer: int,
    dist: Seq<u32>,
    at: (u32, u32),
) -> (u32, u32)
    decreases super::metric::number(at.1) + super::metric::SIGN,
{
    let next = sweep(dist, super::hnsw::neighbours_of(levels, at.0 as int, layer), at);
    if super::metric::less(next.1, at.1) {
        descent(levels, layer, dist, next)
    } else {
        at
    }
}

/// Links at a layer lead to rows of that layer.
pub open spec fn layered(levels: Seq<Seq<Seq<u32>>>) -> bool {
    forall|i: int, l: int, k: int|
        0 <= i < levels.len() && 0 <= l < levels[i].len() && 0 <= k < levels[i][l].len() ==> (
        #[trigger] levels[i][l][k]) < levels.len() && levels[levels[i][l][k] as int].len() > l
}

/// A walk downhill stays among the rows of its layer.
pub proof fn descent_in_layer(
    levels: Seq<Seq<Seq<u32>>>,
    layer: int,
    dist: Seq<u32>,
    at: (u32, u32),
)
    requires
        layered(levels),
        0 <= layer,
        at.0 < levels.len(),
        levels[at.0 as int].len() > layer,
    ensures
        descent(levels, layer, dist, at).0 < levels.len(),
        levels[descent(levels, layer, dist, at).0 as int].len() > layer,
    decreases super::metric::number(at.1) + super::metric::SIGN,
{
    let list = super::hnsw::neighbours_of(levels, at.0 as int, layer);
    let next = sweep(dist, list, at);
    sweep_found(dist, list, at);
    if super::metric::less(next.1, at.1) {
        let k = choose|k: int| 0 <= k < list.len() && list[k] == next.0;
        assert(levels[at.0 as int][layer][k] == next.0);
        descent_in_layer(levels, layer, dist, next);
    }
}

/// Walks downhill at a layer towards a row.
pub(crate) fn descend_to_row<G: Fn(usize, usize) -> u32>(
    graph: &Hnsw,
    g: &G,
    target: usize,
    from: u32,
    layer: usize,
) -> (r: u32)
    requires
        super::distance::answers_pairs(*g, graph@.levels.len() as int),
        super::hnsw::in_range(graph@.levels, graph@.levels.len() as int),
        target < graph@.levels.len(),
        from < graph@.levels.len(),
    ensures
        ({
            let n = graph@.levels.len() as int;
            let dist = super::distance::pairs(*g, n)[target as int];
            r == descent(
                graph@.levels,
                layer as int,
                dist,
                (from, dist[from as int]),
            ).0
        }),
        r < graph@.levels.len(),
{
    let ghost levels = graph@.levels;
    let ghost count = levels.len() as int;
    let ghost dist = super::distance::pairs(*g, count)[target as int];
    let mut cur: u32 = from;
    let mut best: u32 = ask_pair(g, target, from as usize, Ghost(count));
    let ghost start = (cur, best);
    loop
        invariant
            levels == graph@.levels,
            count == levels.len(),
            dist == super::distance::pairs(*g, count)[target as int],
            super::distance::answers_pairs(*g, count),
            super::hnsw::in_range(levels, count),
            target < count,
            cur < count,
            descent(levels, layer as int, dist, start) == descent(
                levels,
                layer as int,
                dist,
                (cur, best),
            ),
        ensures
            descent(levels, layer as int, dist, start) == (cur, best),
            cur < count,
        decreases super::metric::number(best) + super::metric::SIGN,
    {
        let list = graph.neighbours(cur as usize, layer);
        let ghost at = (cur, best);
        let mut improved = false;
        let mut k: usize = 0;
        assert(list@.take(0) =~= Seq::empty());
        while k < list.len()
            invariant
                levels == graph@.levels,
                count == levels.len(),
                dist == super::distance::pairs(*g, count)[target as int],
                super::distance::answers_pairs(*g, count),
                super::hnsw::in_range(levels, count),
                target < count,
                cur < count,
                at.0 < count,
                k <= list@.len(),
                list@ == super::hnsw::neighbours_of(levels, at.0 as int, layer as int),
                (cur, best) == sweep(dist, list@.take(k as int), at),
                improved == super::metric::less(best, at.1),
                !improved ==> (cur, best) == at,
            decreases list@.len() - k,
        {
            assert(list@.take(k + 1).drop_last() =~= list@.take(k as int));
            let n = list[k];
            assert(levels[at.0 as int][layer as int][k as int] < count);
            let d = ask_pair(g, target, n as usize, Ghost(count));
            if is_less(d, best) {
                best = d;
                cur = n;
                improved = true;
            }
            k = k + 1;
        }
        assert(list@.take(k as int) =~= list@);
        if !improved {
            break;
        }
    }
    cur
}

/// Walks downhill at a layer towards a query, from a row and its distance.
pub(crate) fn descend_to_query<F: Fn(usize) -> u32>(
    graph: &Hnsw,
    f: &F,
    from: (u32, u32),
    layer: usize,
    Ghost(count): Ghost<int>,
) -> (r: (u32, u32))
    requires
        super::distance::answers(*f, count),
        super::hnsw::in_range(graph@.levels, count),
        from.0 < count,
        from.1 == super::distance::table(*f, count)[from.0 as int],
    ensures
        r == descent(graph@.levels, layer as int, super::distance::table(*f, count), from),
        r.0 < count,
        r.1 == super::distance::table(*f, count)[r.0 as int],
{
    let ghost levels = graph@.levels;
    let ghost dist = super::distance::table(*f, count);
    let mut cur: u32 = from.0;
    let mut best: u32 = from.1;
    loop
        invariant
            levels == graph@.levels,
            dist == super::distance::table(*f, count),
            super::distance::answers(*f, count),
            super::hnsw::in_range(levels, count),
            cur < count,
            best == dist[cur as int],
            descent(levels, layer as int, dist, from) == descent(
                levels,
                layer as int,
                dist,
                (cur, best),
            ),
        ensures
            descent(levels, layer as int, dist, from) == (cur, best),
            cur < count,
            best == dist[cur as int],
        decreases super::metric::number(best) + super::metric::SIGN,
    {
        let list = graph.neighbours(cur as usize, layer);
        let ghost at = (cur, best);
        let mut improved = false;
        let mut k: usize = 0;
        assert(list@.take(0) =~= Seq::empty());
        while k < list.len()
            invariant
                levels == graph@.levels,
                dist == super::distance::table(*f, count),
                super::distance::answers(*f, count),
                super::hnsw::in_range(levels, count),
                cur < count,
                best == dist[cur as int],
                at.0 < count,
                k <= list@.len(),
                list@ == super::hnsw::neighbours_of(levels, at.0 as int, layer as int),
                (cur, best) == sweep(dist, list@.take(k as int), at),
                improved == super::metric::less(best, at.1),
                !improved ==> (cur, best) == at,
            decreases list@.len() - k,
        {
            assert(list@.take(k + 1).drop_last() =~= list@.take(k as int));
            let n = list[k];
            assert(levels[at.0 as int][layer as int][k as int] < count);
            let d = ask(f, n as usize, Ghost(count));
            if is_less(d, best) {
                best = d;
                cur = n;
                improved = true;
            }
            k = k + 1;
        }
        assert(list@.take(k as int) =~= list@);
        if !improved {
            break;
        }
    }
    (cur, best)
}

/// The number of rows not yet seen.
pub open spec fn unseen(v: Seq<bool>) -> nat
    decreases v.len(),
{
    if v.len() == 0 {
        0
    } else {
        unseen(v.drop_last()) + if v.last() {
            0nat
        } else {
            1nat
        }
    }
}

/// Seeing one more row.
pub proof fn unseen_step(v: Seq<bool>, i: int)
    requires
        0 <= i < v.len(),
        !v[i],
    ensures
        unseen(v.update(i, true)) + 1 == unseen(v),
    decreases v.len(),
{
    let u = v.drop_last();
    if i < v.len() - 1 {
        unseen_step(u, i);
        assert(v.update(i, true).drop_last() =~= u.update(i, true));
    } else {
        assert(v.update(i, true).drop_last() =~= u);
    }
}

/// A best-first search under way: the rows seen, those to be expanded, and the
/// best ones so far, both nearest first.
pub struct Hunt {
    pub seen: Seq<bool>,
    pub frontier: Seq<(u32, u32)>,
    pub best: Seq<(u32, u32)>,
}

impl Hunt {
    /// What decreases with every step.
    pub open spec fn left(self) -> nat {
        2 * unseen(self.seen) + self.frontier.len()
    }
}

/// A search after one more row was looked at. It is kept where it is among the
/// `ef` best.
pub open spec fn looked(h: Hunt, dist: Seq<u32>, ef: int, n: u32) -> Hunt {
    if n >= h.seen.len() || h.seen[n as int] {
        h
    } else {
        let seen = h.seen.update(n as int, true);
        let c = (n, dist[n as int]);
        if h.best.len() < ef || super::metric::less(c.1, h.best.last().1) {
            let best = super::ranking::placed(h.best, c);
            Hunt {
                seen,
                frontier: super::ranking::placed(h.frontier, c),
                best: if best.len() > ef {
                    best.drop_last()
                } else {
                    best
                },
            }
        } else {
            Hunt { seen, frontier: h.frontier, best: h.best }
        }
    }
}

/// A search after some more rows were looked at.
pub open spec fn looked_all(h: Hunt, dist: Seq<u32>, ef: int, list: Seq<u32>) -> Hunt
    decreases list.len(),
{
    if list.len() == 0 {
        h
    } else {
        looked(looked_all(h, dist, ef, list.drop_last()), dist, ef, list.last())
    }
}

pub proof fn placed_len(s: Seq<(u32, u32)>, x: (u32, u32))
    ensures
        super::ranking::placed(s, x).len() == s.len() + 1,
    decreases s.len(),
{
    if s.len() > 0 && super::ranking::nearer(x, s.last()) {
        placed_len(s.drop_last(), x);
    }
}

/// Looking at rows takes the search no further from its end.
pub proof fn looked_left(h: Hunt, dist: Seq<u32>, ef: int, list: Seq<u32>)
    ensures
        looked_all(h, dist, ef, list).left() <= h.left(),
        looked_all(h, dist, ef, list).seen.len() == h.seen.len(),
    decreases list.len(),
{
    if list.len() > 0 {
        looked_left(h, dist, ef, list.drop_last());
        let g = looked_all(h, dist, ef, list.drop_last());
        let n = list.last();
        if n < g.seen.len() && !g.seen[n as int] {
            unseen_step(g.seen, n as int);
            placed_len(g.frontier, (n, dist[n as int]));
        }
    }
}

/// The end of a search. It stops where the nearest row to be expanded is farther
/// than all of enough rows.
pub open spec fn hunted(
    levels: Seq<Seq<Seq<u32>>>,
    layer: int,
    dist: Seq<u32>,
    ef: int,
    h: Hunt,
) -> Hunt
    decreases h.left(),
{
    if h.frontier.len() == 0 {
        h
    } else {
        let c = h.frontier[0];
        let popped = Hunt { seen: h.seen, frontier: h.frontier.skip(1), best: h.best };
        if super::metric::less(h.best.last().1, c.1) && h.best.len() >= ef {
            popped
        } else {
            proof {
                looked_left(
                    popped,
                    dist,
                    ef,
                    super::hnsw::neighbours_of(levels, c.0 as int, layer),
                );
            }
            hunted(
                levels,
                layer,
                dist,
                ef,
                looked_all(
                    popped,
                    dist,
                    ef,
                    super::hnsw::neighbours_of(levels, c.0 as int, layer),
                ),
            )
        }
    }
}

/// A search that has seen one row.
pub open spec fn first_seen(dist: Seq<u32>, ep: u32) -> Hunt {
    Hunt {
        seen: Seq::new(dist.len(), |i: int| i == ep),
        frontier: seq![(ep, dist[ep as int])],
        best: seq![(ep, dist[ep as int])],
    }
}

/// The rows that a search finds, nearest first.
pub open spec fn found(
    levels: Seq<Seq<Seq<u32>>>,
    layer: int,
    dist: Seq<u32>,
    ef: int,
    ep: u32,
) -> Seq<(u32, u32)> {
    hunted(levels, layer, dist, ef, first_seen(dist, ep)).best
}

/// The rows of a list belong to a layer, and one row is not among them.
pub open spec fn rows_ok(
    levels: Seq<Seq<Seq<u32>>>,
    layer: int,
    avoid: int,
    s: Seq<(u32, u32)>,
) -> bool {
    forall|k: int|
        0 <= k < s.len() ==> (#[trigger] s[k]).0 < levels.len() && levels[s[k].0 as int].len()
            > layer && s[k].0 != avoid
}

/// No list at a layer holds some row.
pub open spec fn absent(levels: Seq<Seq<Seq<u32>>>, layer: int, avoid: int) -> bool {
    forall|i: int, k: int|
        0 <= i < levels.len() && 0 <= layer < levels[i].len() && 0 <= k < levels[i][layer].len()
            ==> #[trigger] levels[i][layer][k] != avoid
}

/// What a search keeps: lists in order, of rows of the layer, and something
/// found.
pub open spec fn hunt_ok(
    levels: Seq<Seq<Seq<u32>>>,
    layer: int,
    avoid: int,
    ef: int,
    h: Hunt,
) -> bool {
    &&& super::ranking::ordered(h.frontier)
    &&& super::ranking::ordered(h.best)
    &&& rows_ok(levels, layer, avoid, h.frontier)
    &&& rows_ok(levels, layer, avoid, h.best)
    &&& 1 <= h.best.len() <= ef
}

proof fn placed_rows(
    levels: Seq<Seq<Seq<u32>>>,
    layer: int,
    avoid: int,
    s: Seq<(u32, u32)>,
    x: (u32, u32),
)
    requires
        super::ranking::ordered(s),
        rows_ok(levels, layer, avoid, s),
        x.0 < levels.len(),
        levels[x.0 as int].len() > layer,
        x.0 != avoid,
    ensures
        rows_ok(levels, layer, avoid, super::ranking::placed(s, x)),
        super::ranking::ordered(super::ranking::placed(s, x)),
        super::ranking::placed(s, x).len() == s.len() + 1,
{
    let t = super::ranking::placed(s, x);
    super::ranking::placed_ordered(s, x);
    assert forall|k: int| 0 <= k < t.len() implies (#[trigger] t[k]).0 < levels.len()
        && levels[t[k].0 as int].len() > layer && t[k].0 != avoid by {
        if t[k] != x {
            assert(s.contains(t[k]));
            let j = choose|j: int| 0 <= j < s.len() && s[j] == t[k];
            assert(s[j].0 < levels.len());
        }
    }
}

/// Looking at the neighbours of a row keeps a search well.
pub proof fn looked_ok(
    levels: Seq<Seq<Seq<u32>>>,
    layer: int,
    avoid: int,
    dist: Seq<u32>,
    ef: int,
    h: Hunt,
    list: Seq<u32>,
)
    requires
        hunt_ok(levels, layer, avoid, ef, h),
        forall|k: int|
            0 <= k < list.len() ==> (#[trigger] list[k]) < levels.len()
                && levels[list[k] as int].len() > layer && list[k] != avoid,
        ef >= 1,
    ensures
        hunt_ok(levels, layer, avoid, ef, looked_all(h, dist, ef, list)),
    decreases list.len(),
{
    if list.len() > 0 {
        let u = list.drop_last();
        let n = list.last();
        assert forall|k: int| 0 <= k < u.len() implies (#[trigger] u[k]) < levels.len()
            && levels[u[k] as int].len() > layer && u[k] != avoid by {
            assert(list[k] < levels.len());
        }
        looked_ok(levels, layer, avoid, dist, ef, h, u);
        let g = looked_all(h, dist, ef, u);
        let c = (n, dist[n as int]);
        assert(list[list.len() - 1] == n);
        placed_rows(levels, layer, avoid, g.frontier, c);
        placed_rows(levels, layer, avoid, g.best, c);
        let best = super::ranking::placed(g.best, c);
        let b = best.drop_last();
        assert forall|i: int, j: int| 0 <= i < j < b.len() implies !super::ranking::nearer(
            #[trigger] b[j],
            #[trigger] b[i],
        ) by {
            assert(!super::ranking::nearer(best[j], best[i]));
        }
        assert forall|k: int| 0 <= k < b.len() implies (#[trigger] b[k]).0 < levels.len()
            && levels[b[k].0 as int].len() > layer && b[k].0 != avoid by {
            assert(best[k].0 < levels.len());
        }
    }
}

proof fn popped_ok(
    levels: Seq<Seq<Seq<u32>>>,
    layer: int,
    avoid: int,
    ef: int,
    h: Hunt,
)
    requires
        hunt_ok(levels, layer, avoid, ef, h),
        h.frontier.len() > 0,
    ensures
        hunt_ok(
            levels,
            layer,
            avoid,
            ef,
            (Hunt { seen: h.seen, frontier: h.frontier.skip(1), best: h.best }),
        ),
{
    let f = h.frontier.skip(1);
    assert forall|i: int, j: int| 0 <= i < j < f.len() implies !super::ranking::nearer(
        #[trigger] f[j],
        #[trigger] f[i],
    ) by {
        assert(!super::ranking::nearer(h.frontier[j + 1], h.frontier[i + 1]));
    }
    assert forall|k: int| 0 <= k < f.len() implies (#[trigger] f[k]).0 < levels.len()
        && levels[f[k].0 as int].len() > layer && f[k].0 != avoid by {
        assert(h.frontier[k + 1].0 < levels.len());
    }
}

/// A search finds rows of its layer only.
pub proof fn hunted_ok(
    levels: Seq<Seq<Seq<u32>>>,
    layer: int,
    avoid: int,
    dist: Seq<u32>,
    ef: int,
    h: Hunt,
)
    requires
        layered(levels),
        absent(levels, layer, avoid),
        0 <= layer,
        ef >= 1,
        hunt_ok(levels, layer, avoid, ef, h),
    ensures
        hunt_ok(levels, layer, avoid, ef, hunted(levels, layer, dist, ef, h)),
    decreases h.left(),
{
    if h.frontier.len() > 0 {
        let c = h.frontier[0];
        let popped = Hunt { seen: h.seen, frontier: h.frontier.skip(1), best: h.best };
        popped_ok(levels, layer, avoid, ef, h);
        if !(super::metric::less(h.best.last().1, c.1) && h.best.len() >= ef) {
            let list = super::hnsw::neighbours_of(levels, c.0 as int, layer);
            looked_left(popped, dist, ef, list);
            assert forall|k: int| 0 <= k < list.len() implies (#[trigger] list[k]) < levels.len()
                && levels[list[k] as int].len() > layer && list[k] != avoid by {
                assert(levels[c.0 as int][layer][k] == list[k]);
            }
            looked_ok(levels, layer, avoid, dist, ef, popped, list);
            hunted_ok(levels, layer, avoid, dist, ef, looked_all(popped, dist, ef, list));
        }
    }
}

/// What a search finds: rows of the layer, nearest first, and at least one.
pub proof fn found_ok(
    levels: Seq<Seq<Seq<u32>>>,
    layer: int,
    avoid: int,
    dist: Seq<u32>,
    ef: int,
    ep: u32,
)
    requires
        layered(levels),
        absent(levels, layer, avoid),
        0 <= layer,
        ef >= 1,
        ep < levels.len(),
        levels[ep as int].len() > layer,
        ep != avoid,
    ensures
        rows_ok(levels, layer, avoid, found(levels, layer, dist, ef, ep)),
        super::ranking::ordered(found(levels, layer, dist, ef, ep)),
        1 <= found(levels, layer, dist, ef, ep).len() <= ef,
{
    hunted_ok(levels, layer, avoid, dist, ef, first_seen(dist, ep));
}

/// Finds the rows nearest to a row, best first.
pub(crate) fn search_layer<G: Fn(usize, usize) -> u32>(
    graph: &Hnsw,
    g: &G,
    target: usize,
    ep: u32,
    ef: usize,
    layer: usize,
) -> (r: Vec<(u32, u32)>)
    requires
        super::distance::answers_pairs(*g, graph@.levels.len() as int),
        layered(graph@.levels),
        target < graph@.levels.len(),
        ep < graph@.levels.len(),
        graph@.levels[ep as int].len() > layer,
        ef >= 1,
    ensures
        r@ == found(
            graph@.levels,
            layer as int,
            super::distance::pairs(*g, graph@.levels.len() as int)[target as int],
            ef as int,
            ep,
        ),
{
    let ghost levels = graph@.levels;
    let ghost count = levels.len() as int;
    let ghost dist = super::distance::pairs(*g, count)[target as int];
    let n = graph.len();
    let mut seen: Vec<bool> = Vec::new();
    let mut i: usize = 0;
    while i < n
        invariant
            i <= n,
            seen@.len() == i,
            forall|j: int| 0 <= j < i ==> seen@[j] == (j == ep),
        decreases n - i,
    {
        seen.push(i == ep as usize);
        i = i + 1;
    }
    let d = ask_pair(g, target, ep as usize, Ghost(count));
    let mut frontier: Vec<(u32, u32)> = Vec::new();
    frontier.push((ep, d));
    let mut best: Vec<(u32, u32)> = Vec::new();
    best.push((ep, d));
    let ghost start = first_seen(dist, ep);
    proof {
        assert(seen@ =~= start.seen);
        assert(frontier@ =~= start.frontier);
        assert(best@ =~= start.best);
    }
    let ghost end = hunted(levels, layer as int, dist, ef as int, start);
    while frontier.len() > 0
        invariant_except_break
            end == hunted(
                levels,
                layer as int,
                dist,
                ef as int,
                (Hunt { seen: seen@, frontier: frontier@, best: best@ }),
            ),
        invariant
            levels == graph@.levels,
            count == levels.len(),
            dist == super::distance::pairs(*g, count)[target as int],
            super::distance::answers_pairs(*g, count),
            layered(levels),
            target < count,
            ef >= 1,
            seen@.len() == count,
            hunt_ok(
                levels,
                layer as int,
                -1,
                ef as int,
                (Hunt { seen: seen@, frontier: frontier@, best: best@ }),
            ),
        ensures
            end.best == best@,
        decreases (Hunt { seen: seen@, frontier: frontier@, best: best@ }).left(),
    {
        let ghost h = Hunt { seen: seen@, frontier: frontier@, best: best@ };
        proof {
            popped_ok(levels, layer as int, -1, ef as int, h);
        }
        let c = frontier.remove(0);
        assert(frontier@ =~= h.frontier.skip(1));
        let ghost popped = Hunt { seen: seen@, frontier: frontier@, best: best@ };
        let worst = best[best.len() - 1].1;
        if is_less(worst, c.1) && best.len() >= ef {
            break;
        }
        let list = graph.neighbours(c.0 as usize, layer);
        proof {
            assert(h.frontier[0].0 < levels.len());
            looked_left(popped, dist, ef as int, list@);
        }
        let mut k: usize = 0;
        assert(list@.take(0) =~= Seq::empty());
        while k < list.len()
            invariant
                levels == graph@.levels,
                count == levels.len(),
                dist == super::distance::pairs(*g, count)[target as int],
                super::distance::answers_pairs(*g, count),
                layered(levels),
                target < count,
                ef >= 1,
                seen@.len() == count,
                c.0 < count,
                k <= list@.len(),
                list@ == super::hnsw::neighbours_of(levels, c.0 as int, layer as int),
                hunt_ok(levels, layer as int, -1, ef as int, popped),
                (Hunt { seen: seen@, frontier: frontier@, best: best@ }) == looked_all(
                    popped,
                    dist,
                    ef as int,
                    list@.take(k as int),
                ),
            decreases list@.len() - k,
        {
            proof {
                let t = list@.take(k as int);
                assert(list@.take(k + 1).drop_last() =~= t);
                assert forall|j: int| 0 <= j < t.len() implies (#[trigger] t[j]) < levels.len()
                    && levels[t[j] as int].len() > layer && t[j] != -1 by {
                    assert(levels[c.0 as int][layer as int][j] == t[j]);
                }
                looked_ok(levels, layer as int, -1, dist, ef as int, popped, t);
                assert(levels[c.0 as int][layer as int][k as int] < count);
            }
            let n = list[k];
            if !seen[n as usize] {
                seen.set(n as usize, true);
                let d = ask_pair(g, target, n as usize, Ghost(count));
                let worst = best[best.len() - 1].1;
                if best.len() < ef || is_less(d, worst) {
                    place(&mut frontier, (n, d));
                    place(&mut best, (n, d));
                    if best.len() > ef {
                        let ghost full = best@;
                        let gone = best.pop();
                        assert(best@ =~= full.drop_last());
                    }
                }
            }
            k = k + 1;
        }
        proof {
            assert(list@.take(k as int) =~= list@);
            assert forall|j: int| 0 <= j < list@.len() implies (#[trigger] list@[j])
                < levels.len() && levels[list@[j] as int].len() > layer && list@[j] != -1 by {
                assert(levels[c.0 as int][layer as int][j] == list@[j]);
            }
            looked_ok(levels, layer as int, -1, dist, ef as int, popped, list@);
        }
    }
    best
}

} // verus!
