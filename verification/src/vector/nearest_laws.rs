//! What holds of searches for the nearest: the order of distances is that of the
//! numbers they stand for, walks end where nothing near is nearer, and a search
//! loses no row that it came across and that belongs to its answer.

use vstd::prelude::*;

use super::hnsw_search::Hunt;

verus! {

/// The size of a distance, in units of the smallest one there is: eight bits say
/// how far the others are shifted, and from the second value on a leading one
/// goes without saying.
pub open spec fn size_of_bits(low: int) -> int {
    let e = low / 0x80_0000;
    let m = low % 0x80_0000;
    if e <= 0 {
        m
    } else {
        (0x80_0000 + m) * vstd::arithmetic::power2::pow2((e - 1) as nat)
    }
}

/// The number that a distance stands for, in the same units. Infinities are
/// beyond all others.
pub open spec fn value(d: u32) -> int {
    if d < 0x8000_0000 {
        size_of_bits(d as int)
    } else {
        -size_of_bits(d - 0x8000_0000)
    }
}

/// Whether a distance is a number: not all of the eight bits are set, or nothing
/// but them.
pub open spec fn is_value(d: u32) -> bool {
    (d / 0x80_0000) % 256 != 255 || d % 0x80_0000 == 0
}

proof fn sizes_step(a: int, b: int)
    requires
        0 <= a < b,
    ensures
        0 <= size_of_bits(a) < size_of_bits(b),
{
    let f = 0x80_0000int;
    let (ea, ma) = (a / f, a % f);
    let (eb, mb) = (b / f, b % f);
    assert(a == ea * f + ma && b == eb * f + mb);
    assert(0 <= ea <= eb);
    if ea > 0 {
        vstd::arithmetic::power2::lemma_pow2_pos((ea - 1) as nat);
        let p = vstd::arithmetic::power2::pow2((ea - 1) as nat) as int;
        assert((f + ma) * p >= 0) by (nonlinear_arith)
            requires
                ma >= 0,
                f > 0,
                p > 0,
        ;
        assert((f + ma) * p < (f + f) * p) by (nonlinear_arith)
            requires
                ma < f,
                p > 0,
        ;
        assert(ma < mb ==> (f + ma) * p < (f + mb) * p) by (nonlinear_arith)
            requires
                p > 0,
        ;
    }
    if ea < eb {
        vstd::arithmetic::power2::lemma_pow2_pos((eb - 1) as nat);
        let q = vstd::arithmetic::power2::pow2((eb - 1) as nat) as int;
        assert((f + mb) * q >= f * q) by (nonlinear_arith)
            requires
                mb >= 0,
                q > 0,
        ;
        if ea <= 0 {
            assert(f * q >= f) by (nonlinear_arith)
                requires
                    q >= 1,
                    f > 0,
            ;
        } else {
            let p = vstd::arithmetic::power2::pow2((ea - 1) as nat) as int;
            vstd::arithmetic::power2::lemma_pow2_unfold(ea as nat);
            if ea < eb - 1 {
                vstd::arithmetic::power2::lemma_pow2_strictly_increases(
                    ea as nat,
                    (eb - 1) as nat,
                );
            }
            assert(q >= 2 * p);
            assert((f + f) * p <= f * q) by (nonlinear_arith)
                requires
                    q >= 2 * p,
                    f > 0,
            ;
        }
    }
}

proof fn sizes_order(a: int, b: int)
    requires
        0 <= a,
        0 <= b,
    ensures
        a < b <==> size_of_bits(a) < size_of_bits(b),
        0 <= size_of_bits(a),
        a > 0 ==> 0 < size_of_bits(a),
{
    if a < b {
        sizes_step(a, b);
    } else if b < a {
        sizes_step(b, a);
    }
    if a > 0 {
        sizes_step(0, a);
    }
}

/// One distance is less than another exactly where both are numbers and its
/// number is the smaller one. In the order of all bits, too, a smaller number
/// comes first, and a neighbour at a smaller distance before another.
pub proof fn distances_compare(a: u32, b: u32)
    ensures
        super::metric::is_nan(a) <==> !is_value(a),
        super::metric::less(a, b) <==> is_value(a) && is_value(b) && value(a) < value(b),
        is_value(a) && is_value(b) && value(a) < value(b) ==> super::metric::rank(a)
            < super::metric::rank(b),
        is_value(a) && is_value(b) && super::metric::rank(a) <= super::metric::rank(b) ==> value(a)
            <= value(b),
        forall|i: u32, j: u32|
            is_value(a) && is_value(b) && value(a) < value(b) ==> #[trigger] super::ranking::nearer(
                (i, a),
                (j, b),
            ),
        forall|i: u32, j: u32|
            a == b ==> (#[trigger] super::ranking::nearer((i, a), (j, b)) <==> i < j),
{
    let la = if a < 0x8000_0000 {
        a as int
    } else {
        a - 0x8000_0000
    };
    let lb = if b < 0x8000_0000 {
        b as int
    } else {
        b - 0x8000_0000
    };
    assert(size_of_bits(0) == 0);
    sizes_order(la, lb);
    sizes_order(lb, la);
    assert(super::metric::is_nan(a) <==> la > 0x7f80_0000);
    assert(!is_value(a) <==> la > 0x7f80_0000);
    assert(!is_value(b) <==> lb > 0x7f80_0000);
}

/// A ranking holds the neighbours ranked and no others, nearest first, and of
/// neighbours at one distance the one of the smaller id.
pub proof fn rankings_are_nearest_first(s: Seq<(u32, u32)>, i: int, j: int)
    requires
        0 <= i < j < s.len(),
    ensures
        super::ranking::ranking(s).len() == s.len(),
        super::ranking::ranking(s).to_multiset() == s.to_multiset(),
        ({
            let (a, b) = (super::ranking::ranking(s)[i], super::ranking::ranking(s)[j]);
            &&& is_value(a.1) && is_value(b.1) ==> value(a.1) <= value(b.1)
            &&& a.1 == b.1 ==> a.0 <= b.0
        }),
{
    super::ranking::ranking_ordered(s);
    let r = super::ranking::ranking(s);
    assert(!super::ranking::nearer(r[j], r[i]));
    distances_compare(r[j].1, r[i].1);
    assert(r[j] == (r[j].0, r[j].1) && r[i] == (r[i].0, r[i].1));
}

/// What a sweep comes to is no farther than where it began and than any row that
/// it passed.
pub proof fn sweeps_find_the_nearest(dist: Seq<u32>, list: Seq<u32>, at: (u32, u32), k: int)
    requires
        is_value(at.1),
        0 <= k < list.len() ==> is_value(dist[list[k] as int]),
    ensures
        is_value(super::hnsw_search::sweep(dist, list, at).1),
        value(super::hnsw_search::sweep(dist, list, at).1) <= value(at.1),
        0 <= k < list.len() ==> value(super::hnsw_search::sweep(dist, list, at).1) <= value(
            dist[list[k] as int],
        ),
    decreases list.len(),
{
    if list.len() > 0 {
        let u = list.drop_last();
        sweeps_find_the_nearest(dist, u, at, if k < u.len() {
            k
        } else {
            -1
        });
        distances_compare(
            dist[list.last() as int],
            super::hnsw_search::sweep(dist, u, at).1,
        );
    }
}

/// A walk downhill ends no farther than it began, at a row none of whose
/// neighbours at the layer is nearer.
pub proof fn walks_end_at_the_bottom(
    levels: Seq<Seq<Seq<u32>>>,
    layer: int,
    dist: Seq<u32>,
    at: (u32, u32),
    k: int,
)
    requires
        at.0 < dist.len(),
        at.1 == dist[at.0 as int],
        super::hnsw::in_range(levels, dist.len() as int),
        forall|i: int| 0 <= i < dist.len() ==> is_value(#[trigger] dist[i]),
    ensures
        ({
            let end = super::hnsw_search::descent(levels, layer, dist, at);
            let around = super::hnsw::neighbours_of(levels, end.0 as int, layer);
            &&& end.1 == dist[end.0 as int]
            &&& value(end.1) <= value(at.1)
            &&& 0 <= k < around.len() ==> value(end.1) <= value(dist[around[k] as int])
        }),
    decreases super::metric::number(at.1) + super::metric::SIGN,
{
    let list = super::hnsw::neighbours_of(levels, at.0 as int, layer);
    let next = super::hnsw_search::sweep(dist, list, at);
    super::hnsw_search::sweep_found(dist, list, at);
    distances_compare(next.1, at.1);
    assert forall|i: int| 0 <= i < list.len() implies #[trigger] list[i] < dist.len() by {
        assert(levels[at.0 as int][layer][i] < dist.len());
    }
    if super::metric::less(next.1, at.1) {
        walks_end_at_the_bottom(levels, layer, dist, next, k);
    } else {
        sweeps_find_the_nearest(dist, list, at, k);
    }
}

/// What a list holds with one more neighbour in its place.
proof fn placed_holds(s: Seq<(u32, u32)>, x: (u32, u32))
    requires
        super::ranking::ordered(s),
    ensures
        super::ranking::ordered(super::ranking::placed(s, x)),
        super::ranking::placed(s, x).len() == s.len() + 1,
        forall|y: (u32, u32)| #[trigger]
            super::ranking::placed(s, x).contains(y) <==> y == x || s.contains(y),
{
    super::ranking::placed_ordered(s, x);
    super::ranking::placed_insert(s, x);
    let t = super::ranking::placed(s, x);
    let p = choose|p: int|
        0 <= p <= s.len() && super::ranking::placed(s, x) == #[trigger] s.insert(p, x);
    assert forall|y: (u32, u32)| #[trigger] t.contains(y) <==> y == x || s.contains(y) by {
        if s.contains(y) {
            let k = choose|k: int| 0 <= k < s.len() && s[k] == y;
            assert(t[if k < p {
                k
            } else {
                k + 1
            }] == y);
        }
        if y == x {
            assert(t[p] == y);
        }
    }
}

/// Whether all of some rows were seen.
pub open spec fn all_seen(seen: Seq<bool>, list: Seq<u32>) -> bool {
    forall|k: int| 0 <= k < list.len() && list[k] < seen.len() ==> seen[(#[trigger] list[k]) as int]
}

/// Whether a row has its place among the best: it is there, or there are enough
/// and it is no nearer than any of them.
pub open spec fn accounted(best: Seq<(u32, u32)>, dist: Seq<u32>, ef: int, n: u32) -> bool {
    best.contains((n, dist[n as int])) || (best.len() == ef && forall|j: int|
        0 <= j < best.len() ==> value((#[trigger] best[j]).1) <= value(dist[n as int]))
}

/// What holds of a search at every step. The neighbours of `open` may not all be
/// seen yet.
spec fn sound(
    levels: Seq<Seq<Seq<u32>>>,
    layer: int,
    dist: Seq<u32>,
    ef: int,
    h: Hunt,
    open: Option<u32>,
) -> bool {
    &&& h.seen.len() == dist.len() <= u32::MAX
    &&& 1 <= h.best.len() <= ef
    &&& super::ranking::ordered(h.best)
    &&& super::ranking::ordered(h.frontier)
    &&& forall|y: (u32, u32)| #[trigger]
        h.best.contains(y) ==> y.0 < dist.len() && h.seen[y.0 as int] && y.1 == dist[y.0 as int]
    &&& forall|y: (u32, u32)| #[trigger]
        h.frontier.contains(y) ==> y.0 < dist.len() && y.1 == dist[y.0 as int]
    &&& forall|n: u32| n < dist.len() && h.seen[n as int] ==> #[trigger] accounted(h.best, dist, ef, n)
    &&& forall|y: (u32, u32)| #[trigger]
        h.best.contains(y) ==> open == Some(y.0) || h.frontier.contains(y) || all_seen(
            h.seen,
            super::hnsw::neighbours_of(levels, y.0 as int, layer),
        )
}

/// The last of an ordered list is the farthest.
proof fn last_is_farthest(s: Seq<(u32, u32)>, j: int)
    requires
        super::ranking::ordered(s),
        0 <= j < s.len(),
        forall|i: int| 0 <= i < s.len() ==> is_value((#[trigger] s[i]).1),
    ensures
        value(s[j].1) <= value(s.last().1),
{
    if j < s.len() - 1 {
        assert(!super::ranking::nearer(s[s.len() - 1], s[j]));
        assert(is_value(s[j].1));
        assert(is_value(s[s.len() - 1].1));
        distances_compare(s[s.len() - 1].1, s[j].1);
    }
}

proof fn looked_sound(
    levels: Seq<Seq<Seq<u32>>>,
    layer: int,
    dist: Seq<u32>,
    ef: int,
    h: Hunt,
    open: Option<u32>,
    n: u32,
)
    requires
        sound(levels, layer, dist, ef, h, open),
        forall|i: int| 0 <= i < dist.len() ==> is_value(#[trigger] dist[i]),
    ensures
        sound(levels, layer, dist, ef, super::hnsw_search::looked(h, dist, ef, n), open),
        n < dist.len() ==> super::hnsw_search::looked(h, dist, ef, n).seen[n as int],
        forall|i: int|
            0 <= i < h.seen.len() && h.seen[i]
                ==> #[trigger] super::hnsw_search::looked(h, dist, ef, n).seen[i],
        value(super::hnsw_search::looked(h, dist, ef, n).best[0].1) <= value(h.best[0].1),
{
    let g = super::hnsw_search::looked(h, dist, ef, n);
    assert forall|i: int| 0 <= i < h.best.len() implies is_value((#[trigger] h.best[i]).1) by {
        assert(h.best.contains(h.best[i]));
        assert(is_value(dist[h.best[i].0 as int]));
    }
    if n < h.seen.len() && !h.seen[n as int] {
        let c = (n, dist[n as int]);
        let full = super::ranking::placed(h.best, c);
        placed_holds(h.best, c);
        placed_holds(h.frontier, c);
        let last = h.best.last();
        assert(h.best[h.best.len() - 1] == last);
        assert(is_value(dist[n as int]));
        distances_compare(c.1, last.1);
        assert forall|i: int| 0 <= i < full.len() implies is_value((#[trigger] full[i]).1) by {
            assert(full.contains(full[i]));
            if full[i] != c {
                assert(h.best.contains(full[i]));
                assert(is_value(dist[full[i].0 as int]));
            }
        }
        if h.best.len() < ef || super::metric::less(c.1, last.1) {
            assert forall|y: (u32, u32)| #[trigger] g.best.contains(y) implies y.0 < dist.len()
                && g.seen[y.0 as int] && y.1 == dist[y.0 as int] && full.contains(y) by {
                let j = choose|j: int| 0 <= j < g.best.len() && g.best[j] == y;
                assert(full[j] == y);
                assert(full.contains(y));
                if y != c {
                    assert(h.best.contains(y));
                }
            }
            assert(super::ranking::ordered(g.best)) by {
                assert forall|i: int, j: int| 0 <= i < j < g.best.len() implies !super::ranking::nearer(
                    #[trigger] g.best[j],
                    #[trigger] g.best[i],
                ) by {
                    assert(!super::ranking::nearer(full[j], full[i]));
                }
            }
            assert forall|m: u32| m < dist.len() && g.seen[m as int] implies #[trigger] accounted(
                g.best,
                dist,
                ef,
                m,
            ) by {
                let y = (m, dist[m as int]);
                if full.contains(y) {
                    let j = choose|j: int| 0 <= j < full.len() && full[j] == y;
                    if j < g.best.len() {
                        assert(g.best[j] == y);
                    } else {
                        assert forall|i: int| 0 <= i < g.best.len() implies value(
                            (#[trigger] g.best[i]).1,
                        ) <= value(dist[m as int]) by {
                            assert(g.best[i] == full[i]);
                            last_is_farthest(full, i);
                        }
                    }
                } else {
                    assert(m != n);
                    assert(h.seen[m as int]);
                    assert(accounted(h.best, dist, ef, m));
                    assert(!h.best.contains(y));
                    assert forall|i: int| 0 <= i < g.best.len() implies value(
                        (#[trigger] g.best[i]).1,
                    ) <= value(dist[m as int]) by {
                        assert(g.best.contains(g.best[i]));
                        assert(value(last.1) <= value(dist[m as int]));
                        if g.best[i] != c {
                            assert(h.best.contains(g.best[i]));
                            let k = choose|k: int| 0 <= k < h.best.len() && h.best[k] == g.best[i];
                            assert(value(h.best[k].1) <= value(dist[m as int]));
                        }
                    }
                }
            }
            assert forall|y: (u32, u32)| #[trigger] g.best.contains(y) implies open == Some(y.0)
                || g.frontier.contains(y) || all_seen(
                g.seen,
                super::hnsw::neighbours_of(levels, y.0 as int, layer),
            ) by {
                assert(full.contains(y));
                if y != c {
                    assert(h.best.contains(y));
                }
            }
            assert forall|y: (u32, u32)| #[trigger] g.frontier.contains(y) implies y.0 < dist.len()
                && y.1 == dist[y.0 as int] by {
                if y != c {
                    assert(h.frontier.contains(y));
                }
            }
            assert(value(g.best[0].1) <= value(h.best[0].1)) by {
                assert(full.contains(h.best[0])) by {
                    assert(h.best.contains(h.best[0]));
                }
                let k = choose|k: int| 0 <= k < full.len() && full[k] == h.best[0];
                assert(g.best[0] == full[0]);
                if k > 0 {
                    assert(!super::ranking::nearer(full[k], full[0]));
                    assert(is_value(full[0].1) && is_value(full[k].1));
                    distances_compare(full[k].1, full[0].1);
                }
            }
        } else {
            assert forall|m: u32| m < dist.len() && g.seen[m as int] implies #[trigger] accounted(
                g.best,
                dist,
                ef,
                m,
            ) by {
                if m == n {
                    assert forall|i: int| 0 <= i < g.best.len() implies value(
                        (#[trigger] g.best[i]).1,
                    ) <= value(dist[m as int]) by {
                        last_is_farthest(h.best, i);
                    }
                } else {
                    assert(accounted(h.best, dist, ef, m));
                }
            }
        }
    }
}

proof fn looked_all_sound(
    levels: Seq<Seq<Seq<u32>>>,
    layer: int,
    dist: Seq<u32>,
    ef: int,
    h: Hunt,
    open: Option<u32>,
    list: Seq<u32>,
)
    requires
        sound(levels, layer, dist, ef, h, open),
        forall|i: int| 0 <= i < dist.len() ==> is_value(#[trigger] dist[i]),
    ensures
        sound(levels, layer, dist, ef, super::hnsw_search::looked_all(h, dist, ef, list), open),
        all_seen(super::hnsw_search::looked_all(h, dist, ef, list).seen, list),
        value(super::hnsw_search::looked_all(h, dist, ef, list).best[0].1) <= value(h.best[0].1),
    decreases list.len(),
{
    if list.len() > 0 {
        let u = list.drop_last();
        looked_all_sound(levels, layer, dist, ef, h, open, u);
        let g = super::hnsw_search::looked_all(h, dist, ef, u);
        looked_sound(levels, layer, dist, ef, g, open, list.last());
        let f = super::hnsw_search::looked(g, dist, ef, list.last());
        assert forall|k: int| 0 <= k < list.len() && list[k] < f.seen.len() implies f.seen[(
        #[trigger] list[k]) as int] by {
            if k < u.len() {
                assert(u[k] == list[k]);
                assert(g.seen[u[k] as int]);
            }
        }
    }
}

/// What a search has come to where it ends.
spec fn settled(
    levels: Seq<Seq<Seq<u32>>>,
    layer: int,
    dist: Seq<u32>,
    ef: int,
    best: Seq<(u32, u32)>,
) -> bool {
    &&& 1 <= best.len() <= ef
    &&& super::ranking::ordered(best)
    &&& forall|y: (u32, u32)| #[trigger] best.contains(y) ==> y.0 < dist.len() && y.1 == dist[y.0 as int]
    &&& forall|y: (u32, u32), n: u32|
        #![trigger best.contains(y), accounted(best, dist, ef, n)]
        best.contains(y) && super::hnsw::neighbours_of(levels, y.0 as int, layer).contains(n) && n
            < dist.len() ==> accounted(best, dist, ef, n)
}

proof fn hunted_settles(
    levels: Seq<Seq<Seq<u32>>>,
    layer: int,
    dist: Seq<u32>,
    ef: int,
    h: Hunt,
)
    requires
        sound(levels, layer, dist, ef, h, None),
        forall|i: int| 0 <= i < dist.len() ==> is_value(#[trigger] dist[i]),
    ensures
        settled(levels, layer, dist, ef, super::hnsw_search::hunted(levels, layer, dist, ef, h).best),
        value(super::hnsw_search::hunted(levels, layer, dist, ef, h).best[0].1) <= value(
            h.best[0].1,
        ),
    decreases h.left(),
{
    let stops = h.frontier.len() == 0 || (super::metric::less(h.best.last().1, h.frontier[0].1)
        && h.best.len() >= ef);
    if stops {
        assert forall|i: int| 0 <= i < h.best.len() implies is_value((#[trigger] h.best[i]).1) by {
            assert(h.best.contains(h.best[i]));
            assert(is_value(dist[h.best[i].0 as int]));
        }
        assert forall|y: (u32, u32), n: u32|
            #![trigger h.best.contains(y), accounted(h.best, dist, ef, n)]
            h.best.contains(y) && super::hnsw::neighbours_of(levels, y.0 as int, layer).contains(n)
                && n < dist.len() implies accounted(h.best, dist, ef, n) by {
            if h.frontier.contains(y) {
                let k = choose|k: int| 0 <= k < h.frontier.len() && h.frontier[k] == y;
                let j = choose|j: int| 0 <= j < h.best.len() && h.best[j] == y;
                last_is_farthest(h.best, j);
                assert(h.frontier.contains(h.frontier[0]));
                assert(is_value(dist[h.frontier[0].0 as int]));
                assert(is_value(dist[y.0 as int]));
                distances_compare(h.best.last().1, h.frontier[0].1);
                distances_compare(y.1, h.frontier[0].1);
                if k > 0 {
                    assert(!super::ranking::nearer(h.frontier[k], h.frontier[0]));
                }
                assert(false);
            }
            let list = super::hnsw::neighbours_of(levels, y.0 as int, layer);
            let k = choose|k: int| 0 <= k < list.len() && list[k] == n;
            assert(h.seen[list[k] as int]);
        }
    } else {
        let c = h.frontier[0];
        let popped = Hunt { seen: h.seen, frontier: h.frontier.skip(1), best: h.best };
        let list = super::hnsw::neighbours_of(levels, c.0 as int, layer);
        assert(h.frontier.contains(c));
        assert(super::ranking::ordered(popped.frontier)) by {
            let f = popped.frontier;
            assert forall|i: int, j: int| 0 <= i < j < f.len() implies !super::ranking::nearer(
                #[trigger] f[j],
                #[trigger] f[i],
            ) by {
                assert(!super::ranking::nearer(h.frontier[j + 1], h.frontier[i + 1]));
            }
        }
        assert forall|y: (u32, u32)| #[trigger] popped.frontier.contains(y) implies y.0 < dist.len()
            && y.1 == dist[y.0 as int] by {
            let k = choose|k: int| 0 <= k < popped.frontier.len() && popped.frontier[k] == y;
            assert(h.frontier[k + 1] == y);
            assert(h.frontier.contains(y));
        }
        assert forall|y: (u32, u32)| #[trigger] popped.best.contains(y) implies Some(c.0) == Some(y.0)
            || popped.frontier.contains(y) || all_seen(
            popped.seen,
            super::hnsw::neighbours_of(levels, y.0 as int, layer),
        ) by {
            assert(h.best.contains(y));
            if h.frontier.contains(y) && y != c {
                let k = choose|k: int| 0 <= k < h.frontier.len() && h.frontier[k] == y;
                assert(popped.frontier[k - 1] == y);
            }
        }
        looked_all_sound(levels, layer, dist, ef, popped, Some(c.0), list);
        super::hnsw_search::looked_left(popped, dist, ef, list);
        let g = super::hnsw_search::looked_all(popped, dist, ef, list);
        assert(sound(levels, layer, dist, ef, g, None));
        hunted_settles(levels, layer, dist, ef, g);
    }
}

/// A search hands out rows with their distances, nearest first and no more than
/// asked for, the first of them no farther than where it set out. It overlooks
/// nothing next to them: every neighbour at the layer of a row handed out is
/// handed out too, or as many were as asked for and it is no nearer than any.
pub proof fn searches_overlook_nothing(
    levels: Seq<Seq<Seq<u32>>>,
    layer: int,
    dist: Seq<u32>,
    ef: int,
    ep: u32,
    j: int,
    n: u32,
)
    requires
        forall|i: int| 0 <= i < dist.len() ==> is_value(#[trigger] dist[i]),
        dist.len() <= u32::MAX,
        ep < dist.len(),
        ef >= 1,
        0 <= j < super::hnsw_search::found(levels, layer, dist, ef, ep).len(),
    ensures
        ({
            let r = super::hnsw_search::found(levels, layer, dist, ef, ep);
            &&& 1 <= r.len() <= ef
            &&& r[j].0 < dist.len() && r[j].1 == dist[r[j].0 as int]
            &&& value(r[0].1) <= value(r[j].1)
            &&& value(r[0].1) <= value(dist[ep as int])
            &&& super::hnsw::neighbours_of(levels, r[j].0 as int, layer).contains(n) && n
                < dist.len() ==> r.contains((n, dist[n as int])) || (r.len() == ef && value(r[j].1)
                <= value(dist[n as int]))
        }),
{
    let h = super::hnsw_search::first_seen(dist, ep);
    let c = (ep, dist[ep as int]);
    assert(h.best[0] == c && h.frontier[0] == c);
    assert forall|m: u32| m < dist.len() && h.seen[m as int] implies #[trigger] accounted(
        h.best,
        dist,
        ef,
        m,
    ) by {
        assert(h.best[0] == (m, dist[m as int]));
    }
    hunted_settles(levels, layer, dist, ef, h);
    let r = super::hnsw_search::found(levels, layer, dist, ef, ep);
    assert(r.contains(r[j]));
    assert(r.contains(r[0]));
    if j > 0 {
        assert(!super::ranking::nearer(r[j], r[0]));
        assert(is_value(dist[r[j].0 as int]));
        assert(is_value(dist[r[0].0 as int]));
        distances_compare(r[j].1, r[0].1);
    }
    if super::hnsw::neighbours_of(levels, r[j].0 as int, layer).contains(n) && n < dist.len() {
        assert(accounted(r, dist, ef, n));
    }
}

proof fn sifted_apart(dist: Seq<Seq<u32>>, target: int, cap: int, cands: Seq<(u32, u32)>)
    ensures
        forall|i: int|
            0 <= i < sifted_kept(dist, target, cap, cands).len() ==> #[trigger] apart(
                dist,
                cands,
                sifted_kept(dist, target, cap, cands),
                i,
            ),
        sifted_kept(dist, target, cap, cands).len() >= cap || forall|m: int|
            0 <= m < cands.len() && cands[m].0 != target ==> sifted_kept(
                dist,
                target,
                cap,
                cands,
            ).contains((#[trigger] cands[m]).0) || super::hnsw_select::sifted(
                dist,
                target,
                cap,
                cands,
            ).1.contains(cands[m].0),
    decreases cands.len(),
{
    if cands.len() > 0 {
        let u = cands.drop_last();
        let c = cands.last();
        sifted_apart(dist, target, cap, u);
        let (kept, rejected) = super::hnsw_select::sifted(dist, target, cap, u);
        let (k2, r2) = super::hnsw_select::sifted(dist, target, cap, cands);
        assert forall|i: int| 0 <= i < k2.len() implies #[trigger] apart(dist, cands, k2, i) by {
            if i < kept.len() {
                assert(apart(dist, u, kept, i));
                let m = choose|m: int| 0 <= m < u.len() && #[trigger] stands_apart(dist, u[m], kept, i);
                assert(cands[m] == u[m]);
                assert(stands_apart(dist, cands[m], k2, i)) by {
                    assert forall|j: int| 0 <= j < i implies value(cands[m].1) < value(
                        dist[k2[i] as int][#[trigger] k2[j] as int],
                    ) by {
                        assert(kept[j] == k2[j]);
                    }
                }
            } else {
                assert(stands_apart(dist, cands[cands.len() - 1], k2, i)) by {
                    assert forall|j: int| 0 <= j < i implies value(c.1) < value(
                        dist[k2[i] as int][#[trigger] k2[j] as int],
                    ) by {
                        assert(kept[j] == k2[j]);
                        distances_compare(c.1, dist[c.0 as int][kept[j] as int]);
                    }
                }
            }
        }
        if k2.len() < cap {
            assert forall|m: int| 0 <= m < cands.len() && cands[m].0 != target implies k2.contains(
                (#[trigger] cands[m]).0,
            ) || r2.contains(cands[m].0) by {
                if m < u.len() {
                    assert(u[m] == cands[m]);
                    if kept.contains(u[m].0) {
                        let q = choose|q: int| 0 <= q < kept.len() && kept[q] == u[m].0;
                        assert(k2[q] == u[m].0);
                    } else {
                        let q = choose|q: int| 0 <= q < rejected.len() && rejected[q] == u[m].0;
                        assert(r2[q] == u[m].0);
                    }
                } else if k2.len() > kept.len() {
                    assert(k2[kept.len() as int] == c.0);
                } else {
                    assert(r2[rejected.len() as int] == c.0);
                }
            }
        }
    }
}

/// The rows kept of some candidates.
pub open spec fn sifted_kept(
    dist: Seq<Seq<u32>>,
    target: int,
    cap: int,
    cands: Seq<(u32, u32)>,
) -> Seq<u32> {
    super::hnsw_select::sifted(dist, target, cap, cands).0
}

/// Whether a candidate is the row at a place and is nearer to its target than to
/// each row before it.
pub open spec fn stands_apart(
    dist: Seq<Seq<u32>>,
    c: (u32, u32),
    kept: Seq<u32>,
    i: int,
) -> bool {
    &&& c.0 == kept[i]
    &&& forall|j: int| 0 <= j < i ==> value(c.1) < value(dist[kept[i] as int][#[trigger] kept[j] as int])
}

/// Whether the row at a place is such a candidate.
pub open spec fn apart(
    dist: Seq<Seq<u32>>,
    cands: Seq<(u32, u32)>,
    kept: Seq<u32>,
    i: int,
) -> bool {
    exists|m: int| 0 <= m < cands.len() && #[trigger] stands_apart(dist, cands[m], kept, i)
}

/// A row gets the rows kept of its candidates first. Each of them is nearer to it
/// than to those before. Places that are left go to the others: a candidate goes
/// without a place only where none is left.
pub proof fn neighbours_are_chosen(
    dist: Seq<Seq<u32>>,
    target: int,
    cap: int,
    cands: Seq<(u32, u32)>,
    i: int,
    m: int,
)
    requires
        cap >= 1,
        0 <= i < sifted_kept(dist, target, cap, cands).len(),
        0 <= m < cands.len(),
        cands[m].0 != target,
    ensures
        ({
            let r = super::hnsw_select::chosen(dist, target, cap, cands);
            &&& i < r.len() && r[i] == sifted_kept(dist, target, cap, cands)[i]
            &&& apart(dist, cands, r, i)
            &&& r.len() <= cap
            &&& r.len() == cap || r.contains(cands[m].0)
        }),
{
    sifted_apart(dist, target, cap, cands);
    super::hnsw_select::chosen_ok(dist, target, cap, cands);
    super::hnsw_select::sifted_ok(dist, target, cap, cands);
    let (kept, rejected) = super::hnsw_select::sifted(dist, target, cap, cands);
    let r = super::hnsw_select::chosen(dist, target, cap, cands);
    assert(apart(dist, cands, kept, i));
    let q = choose|q: int| 0 <= q < cands.len() && #[trigger] stands_apart(dist, cands[q], kept, i);
    assert(stands_apart(dist, cands[q], r, i)) by {
        assert forall|j: int| 0 <= j < i implies value(cands[q].1) < value(
            dist[r[i] as int][#[trigger] r[j] as int],
        ) by {
            assert(kept[j] == r[j]);
        }
    }
    if r.len() < cap {
        assert(kept.len() < cap);
        if kept.contains(cands[m].0) {
            let k = choose|k: int| 0 <= k < kept.len() && kept[k] == cands[m].0;
            assert(r[k] == cands[m].0);
        } else {
            assert(rejected.contains(cands[m].0));
            let k = choose|k: int| 0 <= k < rejected.len() && rejected[k] == cands[m].0;
            assert(r[kept.len() + k] == cands[m].0);
        }
    }
}

/// Of some candidates those come out that have a row, each with the distance of
/// that row, and no other.
pub proof fn candidates_are_looked_up(
    ids: Seq<u32>,
    dist: Seq<u32>,
    candidates: Seq<u32>,
    c: u32,
    d: u32,
)
    requires
        forall|i: int, j: int| 0 <= i < j < ids.len() ==> ids[i] != ids[j],
    ensures
        super::store::candidate_pairs(ids, dist, candidates).contains((c, d))
            <==> candidates.contains(c) && exists|i: int|
            0 <= i < ids.len() && ids[i] == c && #[trigger] dist[i] == d,
    decreases candidates.len(),
{
    if candidates.len() > 0 {
        let u = candidates.drop_last();
        let x = candidates.last();
        candidates_are_looked_up(ids, dist, u, c, d);
        let rest = super::store::candidate_pairs(ids, dist, u);
        let all = super::store::candidate_pairs(ids, dist, candidates);
        assert(candidates.contains(c) <==> c == x || u.contains(c)) by {
            if u.contains(c) {
                let k = choose|k: int| 0 <= k < u.len() && u[k] == c;
                assert(candidates[k] == c);
            }
            if c == x {
                assert(candidates[candidates.len() - 1] == c);
            }
            if candidates.contains(c) && c != x {
                let k = choose|k: int| 0 <= k < candidates.len() && candidates[k] == c;
                assert(u[k] == c);
            }
        }
        if ids.contains(x) {
            let p = ids.index_of(x);
            let last = (x, dist[p]);
            assert(0 <= p < ids.len() && ids[p] == x);
            assert(all.contains((c, d)) <==> (c, d) == last || rest.contains((c, d))) by {
                assert(all[rest.len() as int] == last);
                if rest.contains((c, d)) {
                    let k = choose|k: int| 0 <= k < rest.len() && rest[k] == (c, d);
                    assert(all[k] == (c, d));
                }
                if all.contains((c, d)) && (c, d) != last {
                    let k = choose|k: int| 0 <= k < all.len() && all[k] == (c, d);
                    assert(rest[k] == (c, d));
                }
            }
            if (c, d) == last {
                assert(dist[p] == d);
            }
            if exists|i: int| 0 <= i < ids.len() && ids[i] == c && #[trigger] dist[i] == d {
                let i = choose|i: int| 0 <= i < ids.len() && ids[i] == c && #[trigger] dist[i] == d;
                if c == x {
                    assert(i == p);
                }
            }
        } else {
            if exists|i: int| 0 <= i < ids.len() && ids[i] == c && #[trigger] dist[i] == d {
                let i = choose|i: int| 0 <= i < ids.len() && ids[i] == c && #[trigger] dist[i] == d;
                assert(ids.contains(c));
            }
        }
    }
}

} // verus!
