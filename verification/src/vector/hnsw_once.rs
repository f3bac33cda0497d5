//! A built graph repeats no row in a list.

use vstd::prelude::*;

use super::hnsw_search::Hunt;

verus! {

/// No row occurs twice.
pub open spec fn distinct_rows(s: Seq<(u32, u32)>) -> bool {
    forall|i: int, j: int| 0 <= i < j < s.len() ==> (#[trigger] s[i]).0 != (#[trigger] s[j]).0
}

/// A row does not occur.
pub open spec fn lacks_row(s: Seq<(u32, u32)>, row: u32) -> bool {
    forall|k: int| 0 <= k < s.len() ==> (#[trigger] s[k]).0 != row
}

/// No list repeats a row.
pub open spec fn unrepeated(levels: Seq<Seq<Seq<u32>>>) -> bool {
    forall|a: int, l: int|
        0 <= a < levels.len() && 0 <= l < levels[a].len() ==> (
        #[trigger] levels[a][l]).no_duplicates()
}

proof fn placed_lacks(s: Seq<(u32, u32)>, x: (u32, u32), row: u32)
    requires
        lacks_row(s, row),
        x.0 != row,
    ensures
        lacks_row(super::ranking::placed(s, x), row),
    decreases s.len(),
{
    if s.len() > 0 && super::ranking::nearer(x, s.last()) {
        let u = s.drop_last();
        assert forall|k: int| 0 <= k < u.len() implies (#[trigger] u[k]).0 != row by {
            assert(s[k].0 != row);
        }
        placed_lacks(u, x, row);
        assert(s[s.len() - 1].0 != row);
    }
}

proof fn placed_once(s: Seq<(u32, u32)>, x: (u32, u32))
    requires
        distinct_rows(s),
        lacks_row(s, x.0),
    ensures
        distinct_rows(super::ranking::placed(s, x)),
    decreases s.len(),
{
    if s.len() > 0 && super::ranking::nearer(x, s.last()) {
        let u = s.drop_last();
        let last = s[s.len() - 1];
        assert forall|i: int, j: int| 0 <= i < j < u.len() implies (#[trigger] u[i]).0 != (
        #[trigger] u[j]).0 by {
            assert(s[i].0 != s[j].0);
        }
        assert forall|k: int| 0 <= k < u.len() implies (#[trigger] u[k]).0 != x.0 by {
            assert(s[k].0 != x.0);
        }
        assert forall|k: int| 0 <= k < u.len() implies (#[trigger] u[k]).0 != last.0 by {
            assert(s[k].0 != s[s.len() - 1].0);
        }
        placed_once(u, x);
        placed_lacks(u, x, last.0);
    }
}

proof fn ranking_lacks(s: Seq<(u32, u32)>, row: u32)
    requires
        lacks_row(s, row),
    ensures
        lacks_row(super::ranking::ranking(s), row),
    decreases s.len(),
{
    if s.len() > 0 {
        let u = s.drop_last();
        assert forall|k: int| 0 <= k < u.len() implies (#[trigger] u[k]).0 != row by {
            assert(s[k].0 != row);
        }
        ranking_lacks(u, row);
        assert(s[s.len() - 1].0 != row);
        placed_lacks(super::ranking::ranking(u), s.last(), row);
    }
}

proof fn ranking_once(s: Seq<(u32, u32)>)
    requires
        distinct_rows(s),
    ensures
        distinct_rows(super::ranking::ranking(s)),
    decreases s.len(),
{
    if s.len() > 0 {
        let u = s.drop_last();
        let last = s[s.len() - 1];
        assert forall|i: int, j: int| 0 <= i < j < u.len() implies (#[trigger] u[i]).0 != (
        #[trigger] u[j]).0 by {
            assert(s[i].0 != s[j].0);
        }
        assert forall|k: int| 0 <= k < u.len() implies (#[trigger] u[k]).0 != last.0 by {
            assert(s[k].0 != s[s.len() - 1].0);
        }
        ranking_once(u);
        ranking_lacks(u, last.0);
        placed_once(super::ranking::ranking(u), last);
    }
}

proof fn deduped_lacks(s: Seq<(u32, u32)>, row: u32)
    requires
        lacks_row(s, row),
    ensures
        lacks_row(super::hnsw_select::deduped(s), row),
    decreases s.len(),
{
    if s.len() > 0 {
        let u = s.drop_last();
        assert forall|k: int| 0 <= k < u.len() implies (#[trigger] u[k]).0 != row by {
            assert(s[k].0 != row);
        }
        deduped_lacks(u, row);
        assert(s[s.len() - 1].0 != row);
    }
}

proof fn deduped_once(s: Seq<(u32, u32)>)
    requires
        distinct_rows(s),
    ensures
        distinct_rows(super::hnsw_select::deduped(s)),
    decreases s.len(),
{
    if s.len() > 0 {
        let u = s.drop_last();
        let last = s[s.len() - 1];
        assert forall|i: int, j: int| 0 <= i < j < u.len() implies (#[trigger] u[i]).0 != (
        #[trigger] u[j]).0 by {
            assert(s[i].0 != s[j].0);
        }
        assert forall|k: int| 0 <= k < u.len() implies (#[trigger] u[k]).0 != last.0 by {
            assert(s[k].0 != s[s.len() - 1].0);
        }
        deduped_once(u);
        deduped_lacks(u, last.0);
    }
}

proof fn pushed_once(s: Seq<u32>, x: u32)
    requires
        s.no_duplicates(),
        !s.contains(x),
    ensures
        s.push(x).no_duplicates(),
{
    let all = s.push(x);
    assert forall|i: int, j: int| 0 <= i < all.len() && 0 <= j < all.len() && i != j implies all[i]
        != all[j] by {
        if i < s.len() && j < s.len() {
            assert(s[i] != s[j]);
        } else if i < s.len() {
            assert(s.contains(s[i]));
        } else {
            assert(s.contains(s[j]));
        }
    }
}

proof fn sifted_once(dist: Seq<Seq<u32>>, target: int, cap: int, cands: Seq<(u32, u32)>)
    requires
        cap >= 1,
        distinct_rows(cands),
    ensures
        ({
            let (kept, rejected) = super::hnsw_select::sifted(dist, target, cap, cands);
            &&& kept.no_duplicates()
            &&& rejected.no_duplicates()
            &&& forall|k: int| 0 <= k < kept.len() ==> !rejected.contains(#[trigger] kept[k])
        }),
    decreases cands.len(),
{
    if cands.len() > 0 {
        let u = cands.drop_last();
        let x = cands[cands.len() - 1].0;
        assert forall|i: int, j: int| 0 <= i < j < u.len() implies (#[trigger] u[i]).0 != (
        #[trigger] u[j]).0 by {
            assert(cands[i].0 != cands[j].0);
        }
        sifted_once(dist, target, cap, u);
        super::hnsw_select::sifted_ok(dist, target, cap, u);
        let (kept, rejected) = super::hnsw_select::sifted(dist, target, cap, u);
        assert(!kept.contains(x)) by {
            if kept.contains(x) {
                let k = choose|k: int| 0 <= k < kept.len() && kept[k] == x;
                let j = choose|j: int| 0 <= j < u.len() && (#[trigger] u[j]).0 == kept[k];
                assert(cands[j].0 != cands[cands.len() - 1].0);
            }
        }
        assert(!rejected.contains(x)) by {
            if rejected.contains(x) {
                let k = choose|k: int| 0 <= k < rejected.len() && rejected[k] == x;
                let j = choose|j: int| 0 <= j < u.len() && (#[trigger] u[j]).0 == rejected[k];
                assert(cands[j].0 != cands[cands.len() - 1].0);
            }
        }
        pushed_once(kept, x);
        pushed_once(rejected, x);
        let more = rejected.push(x);
        assert forall|k: int| 0 <= k < kept.len() implies !more.contains(#[trigger] kept[k]) by {
            if more.contains(kept[k]) {
                let j = choose|j: int| 0 <= j < more.len() && more[j] == kept[k];
                if j < rejected.len() {
                    assert(rejected[j] == kept[k]);
                } else {
                    assert(kept.contains(x));
                }
            }
        }
        let wider = kept.push(x);
        assert forall|k: int| 0 <= k < wider.len() implies !rejected.contains(
            #[trigger] wider[k],
        ) by {
            if k < kept.len() {
                assert(wider[k] == kept[k]);
            }
        }
    }
}

/// Of distinct candidates distinct ones are chosen.
proof fn chosen_once(dist: Seq<Seq<u32>>, target: int, cap: int, cands: Seq<(u32, u32)>)
    requires
        cap >= 1,
        distinct_rows(cands),
    ensures
        super::hnsw_select::chosen(dist, target, cap, cands).no_duplicates(),
{
    sifted_once(dist, target, cap, cands);
    let (kept, rejected) = super::hnsw_select::sifted(dist, target, cap, cands);
    let all = super::hnsw_select::chosen(dist, target, cap, cands);
    assert forall|i: int, j: int| 0 <= i < all.len() && 0 <= j < all.len() && i != j implies all[i]
        != all[j] by {
        if i < kept.len() && j < kept.len() {
            assert(kept[i] != kept[j]);
        } else if i < kept.len() {
            assert(all[j] == rejected[j - kept.len()]);
            assert(!rejected.contains(kept[i]));
        } else if j < kept.len() {
            assert(all[i] == rejected[i - kept.len()]);
            assert(!rejected.contains(kept[j]));
        } else {
            assert(rejected[i - kept.len()] != rejected[j - kept.len()]);
        }
    }
}

proof fn relisted_once(dist: Seq<Seq<u32>>, node: int, cap: int, list: Seq<u32>)
    requires
        cap >= 1,
        list.no_duplicates(),
    ensures
        super::hnsw_select::relisted(dist, node, cap, list).no_duplicates(),
{
    let pairs = super::hnsw_select::with_distances(list, dist[node]);
    assert forall|i: int, j: int| 0 <= i < j < pairs.len() implies (#[trigger] pairs[i]).0 != (
    #[trigger] pairs[j]).0 by {
        assert(list[i] != list[j]);
    }
    ranking_once(pairs);
    deduped_once(super::ranking::ranking(pairs));
    chosen_once(dist, node, cap, super::hnsw_select::deduped(super::ranking::ranking(pairs)));
}

/// The best rows of a search are distinct, and have been seen.
spec fn hunt_once(h: Hunt) -> bool {
    &&& distinct_rows(h.best)
    &&& forall|k: int|
        0 <= k < h.best.len() && (#[trigger] h.best[k]).0 < h.seen.len()
            ==> h.seen[h.best[k].0 as int]
}

proof fn looked_once(h: Hunt, dist: Seq<u32>, ef: int, list: Seq<u32>)
    requires
        hunt_once(h),
    ensures
        hunt_once(super::hnsw_search::looked_all(h, dist, ef, list)),
    decreases list.len(),
{
    if list.len() > 0 {
        looked_once(h, dist, ef, list.drop_last());
        let g = super::hnsw_search::looked_all(h, dist, ef, list.drop_last());
        let n = list.last();
        if n < g.seen.len() && !g.seen[n as int] {
            let c = (n, dist[n as int]);
            assert forall|k: int| 0 <= k < g.best.len() implies (#[trigger] g.best[k]).0 != n by {}
            placed_once(g.best, c);
            let best = super::ranking::placed(g.best, c);
            let seen = g.seen.update(n as int, true);
            assert forall|k: int|
                0 <= k < best.len() && (#[trigger] best[k]).0 < seen.len() implies seen[
            best[k].0 as int] by {
                let r = best[k].0;
                if r != n && !g.seen[r as int] {
                    assert(lacks_row(g.best, r));
                    placed_lacks(g.best, c, r);
                }
            }
            let b = best.drop_last();
            assert forall|i: int, j: int| 0 <= i < j < b.len() implies (#[trigger] b[i]).0 != (
            #[trigger] b[j]).0 by {
                assert(best[i].0 != best[j].0);
            }
            assert forall|k: int|
                0 <= k < b.len() && (#[trigger] b[k]).0 < seen.len() implies seen[
            b[k].0 as int] by {
                assert(best[k] == b[k]);
            }
            assert forall|k: int|
                0 <= k < g.best.len() && (#[trigger] g.best[k]).0 < seen.len() implies seen[
            g.best[k].0 as int] by {}
        }
    }
}

proof fn hunted_once(
    levels: Seq<Seq<Seq<u32>>>,
    layer: int,
    dist: Seq<u32>,
    ef: int,
    h: Hunt,
)
    requires
        hunt_once(h),
    ensures
        hunt_once(super::hnsw_search::hunted(levels, layer, dist, ef, h)),
    decreases h.left(),
{
    if h.frontier.len() > 0 {
        let c = h.frontier[0];
        let popped = Hunt { seen: h.seen, frontier: h.frontier.skip(1), best: h.best };
        if !(super::metric::less(h.best.last().1, c.1) && h.best.len() >= ef) {
            let list = super::hnsw::neighbours_of(levels, c.0 as int, layer);
            super::hnsw_search::looked_left(popped, dist, ef, list);
            looked_once(popped, dist, ef, list);
            hunted_once(
                levels,
                layer,
                dist,
                ef,
                super::hnsw_search::looked_all(popped, dist, ef, list),
            );
        }
    }
}

/// A search finds a row once.
pub proof fn found_once(
    levels: Seq<Seq<Seq<u32>>>,
    layer: int,
    dist: Seq<u32>,
    ef: int,
    ep: u32,
)
    ensures
        distinct_rows(super::hnsw_search::found(levels, layer, dist, ef, ep)),
{
    hunted_once(levels, layer, dist, ef, super::hnsw_search::first_seen(dist, ep));
}

proof fn linked_once(levels: Seq<Seq<Seq<u32>>>, i: int, layer: int, picked: Seq<u32>)
    requires
        super::hnsw_build::links_ok(levels, i, layer),
        0 <= i < levels.len(),
        i <= u32::MAX,
        0 <= layer < levels[i].len(),
        super::hnsw_build::partners(levels, i, layer, picked),
        levels[i][layer].len() == 0,
        picked.no_duplicates(),
        unrepeated(levels),
    ensures
        unrepeated(super::hnsw_build::linked(levels, i, layer, picked)),
    decreases picked.len(),
{
    if picked.len() > 0 {
        let q = picked.drop_last();
        let n = picked[picked.len() - 1];
        assert(n < i);
        assert forall|k: int| 0 <= k < q.len() implies (#[trigger] q[k]) < i
            && levels[q[k] as int].len() > layer by {
            assert(picked[k] < i);
        }
        assert(q.no_duplicates());
        linked_once(levels, i, layer, q);
        super::hnsw_build::links_below(levels, i, layer);
        super::hnsw_build::linked_ok(levels, i, layer, q);
        let u = super::hnsw_build::linked(levels, i, layer, q);
        assert(u[i].len() == levels[i].len());
        assert(u[n as int].len() == levels[n as int].len());
        let mine = u[i][layer].push(n);
        assert(u[i][layer] =~= q);
        assert(mine =~= picked);
        assert(!q.contains(n)) by {
            if q.contains(n) {
                let k = choose|k: int| 0 <= k < q.len() && q[k] == n;
                assert(picked[k] != picked[picked.len() - 1]);
            }
        }
        let v = super::hnsw_build::put(u, i, layer, mine);
        assert(v[n as int] == u[n as int]);
        assert(u[n as int][layer] == levels[n as int][layer]);
        let had = v[n as int][layer];
        assert(!had.contains(i as u32)) by {
            if had.contains(i as u32) {
                let k = choose|k: int| 0 <= k < had.len() && had[k] == i as u32;
                assert(super::hnsw_build::link_ok(
                    levels,
                    i,
                    layer,
                    n as int,
                    layer,
                    levels[n as int][layer][k],
                ));
            }
        }
        assert(had.no_duplicates());
        pushed_once(had, i as u32);
        let s = super::hnsw_build::linked(levels, i, layer, picked);
        assert(s == super::hnsw_build::put(v, n as int, layer, had.push(i as u32)));
        assert forall|a: int, l: int| 0 <= a < s.len() && 0 <= l < s[a].len() implies (
        #[trigger] s[a][l]).no_duplicates() by {
            if a == n && l == layer {
            } else if a == i && l == layer {
                assert(s[a][l] == mine);
            } else {
                assert(s[a][l] == u[a][l]);
            }
        }
    }
}

proof fn trimmed_once(
    dist: Seq<Seq<u32>>,
    cap: int,
    levels: Seq<Seq<Seq<u32>>>,
    i: int,
    layer: int,
    picked: Seq<u32>,
)
    requires
        cap >= 1,
        super::hnsw_build::links_ok(levels, i, layer - 1),
        0 <= i < levels.len(),
        0 <= layer,
        super::hnsw_build::partners(levels, i, layer, picked),
        unrepeated(levels),
    ensures
        unrepeated(super::hnsw_build::trimmed(dist, cap, levels, layer, picked)),
    decreases picked.len(),
{
    if picked.len() > 0 {
        let q = picked.drop_last();
        let n = picked[picked.len() - 1] as int;
        assert(n < i);
        assert forall|k: int| 0 <= k < q.len() implies (#[trigger] q[k]) < i
            && levels[q[k] as int].len() > layer by {
            assert(picked[k] < i);
        }
        trimmed_once(dist, cap, levels, i, layer, q);
        super::hnsw_build::trimmed_ok(dist, cap, levels, i, layer, q);
        let u = super::hnsw_build::trimmed(dist, cap, levels, layer, q);
        assert(u[n].len() == levels[n].len());
        relisted_once(dist, n, cap, u[n][layer]);
        let s = super::hnsw_build::trimmed(dist, cap, levels, layer, picked);
        assert forall|a: int, l: int| 0 <= a < s.len() && 0 <= l < s[a].len() implies (
        #[trigger] s[a][l]).no_duplicates() by {
            if !(a == n && l == layer) {
                assert(s[a][l] == u[a][l]);
            }
        }
    }
}

proof fn joined_once(
    dist: Seq<Seq<u32>>,
    m: int,
    ef: int,
    levels: Seq<Seq<Seq<u32>>>,
    heights: Seq<usize>,
    i: int,
    ep: u32,
    layer: int,
)
    requires
        m >= 2,
        ef >= 1,
        super::hnsw_build::joining(levels, m, heights, i, layer),
        0 < i < levels.len(),
        i <= u32::MAX,
        0 <= layer < levels[i].len(),
        ep < i,
        levels[ep as int].len() > layer,
        unrepeated(levels),
    ensures
        unrepeated(super::hnsw_build::joined(dist, m, ef, levels, i, ep, layer).0),
{
    let near = super::hnsw_search::found(levels, layer, dist[i], ef, ep);
    let cap = super::hnsw_build::cap_at(m, layer);
    let picked = super::hnsw_select::chosen(dist, i, cap, near);
    super::hnsw_build::picked_before(dist, m, ef, levels, heights, i, ep, layer);
    found_once(levels, layer, dist[i], ef, ep);
    chosen_once(dist, i, cap, near);
    assert(levels[i][layer].len() == 0);
    linked_once(levels, i, layer, picked);
    super::hnsw_build::links_below(levels, i, layer);
    super::hnsw_build::linked_ok(levels, i, layer, picked);
    let mid = super::hnsw_build::linked(levels, i, layer, picked);
    assert forall|k: int| 0 <= k < picked.len() implies (#[trigger] picked[k]) < i
        && mid[picked[k] as int].len() > layer by {
        assert(mid[picked[k] as int].len() == levels[picked[k] as int].len());
    }
    trimmed_once(dist, cap, mid, i, layer, picked);
}

proof fn joined_down_once(
    dist: Seq<Seq<u32>>,
    m: int,
    ef: int,
    levels: Seq<Seq<Seq<u32>>>,
    heights: Seq<usize>,
    i: int,
    ep: u32,
    layer: int,
)
    requires
        m >= 2,
        ef >= 1,
        super::hnsw_build::joining(levels, m, heights, i, layer),
        0 < i < levels.len(),
        i <= u32::MAX,
        layer < levels[i].len(),
        layer >= 0 ==> ep < i && levels[ep as int].len() > layer,
        unrepeated(levels),
    ensures
        unrepeated(super::hnsw_build::joined_down(dist, m, ef, levels, i, ep, layer)),
    decreases layer + 1,
{
    if layer >= 0 {
        super::hnsw_build::joined_ok(dist, m, ef, levels, heights, i, ep, layer);
        joined_once(dist, m, ef, levels, heights, i, ep, layer);
        let (next, at) = super::hnsw_build::joined(dist, m, ef, levels, i, ep, layer);
        assert(next[i].len() == heights[i] + 1);
        assert(levels[i].len() == heights[i] + 1);
        assert(next[at as int].len() == heights[at as int] + 1);
        assert(levels[at as int].len() == heights[at as int] + 1);
        joined_down_once(dist, m, ef, next, heights, i, at, layer - 1);
    }
}

/// A graph of some rows repeats no row in a list.
pub proof fn grown_once(dist: Seq<Seq<u32>>, m: int, ef: int, heights: Seq<usize>, n: int)
    requires
        m >= 2,
        ef >= 1,
        1 <= n <= heights.len() <= u32::MAX,
    ensures
        unrepeated(super::hnsw_build::grown(dist, m, ef, heights, n).levels),
    decreases n,
{
    if n > 1 {
        let i = n - 1;
        let g = super::hnsw_build::grown(dist, m, ef, heights, i);
        grown_once(dist, m, ef, heights, i);
        super::hnsw_build::grown_ok(dist, m, ef, heights, i);
        super::hnsw_build::with_row_ok(dist, m, ef, heights, g, i);
        let h = heights[i] as int;
        let low = if h < g.top {
            h
        } else {
            g.top
        };
        let ep = super::hnsw_build::walked_down(g.levels, dist[i], g.entry, g.top, h);
        assert(g.levels[i].len() == heights[i] + 1);
        joined_down_once(dist, m, ef, g.levels, heights, i, ep, low);
    }
}

} // verus!
