//! The construction of a proximity graph, row by row.
//!
//! The height of each row is drawn outside: an exponentially falling share of
//! the rows reaches each higher layer.

use vstd::prelude::*;

use super::hnsw::Hnsw;
use super::hnsw_search::{descend_to_row, search_layer};
use super::hnsw_select::{relist, select_neighbours};

verus! {

/// How a graph is built.
#[derive(Debug, Clone, Copy)]
pub struct HnswParams {
    /// The number of neighbours that a row keeps above layer 0. At layer 0 it
    /// keeps twice as many.
    pub m: usize,
    /// The number of candidates kept while searching.
    pub ef_construction: usize,
    /// The seed of the heights.
    pub seed: u64,
}

impl Default for HnswParams {
    fn default() -> (r: Self)
        ensures
            r.m == 16,
            r.ef_construction == 200,
            r.seed == 0x9E37_79B9_7F4A_7C15,
    {
        HnswParams { m: 16, ef_construction: 200, seed: 0x9E37_79B9_7F4A_7C15 }
    }
}

/// A generator of pseudo-random numbers: xorshift64*.
pub struct Rng {
    pub state: u64,
}

/// The state of a generator after one more number.
pub open spec fn shuffled(x: u64) -> u64 {
    let a = x ^ (x >> 12u64);
    let b = a ^ (a << 25u64);
    b ^ (b >> 27u64)
}

impl Rng {
    /// A generator with a seed other than 0, for which another one stands.
    pub fn new(seed: u64) -> (r: Rng)
        ensures
            r.state == if seed == 0 {
                0x9E37_79B9_7F4A_7C15u64
            } else {
                seed
            },
    {
        if seed == 0 {
            Rng { state: 0x9E37_79B9_7F4A_7C15 }
        } else {
            Rng { state: seed }
        }
    }

    /// The next number.
    pub fn next_u64(&mut self) -> (r: u64)
        ensures
            final(self).state == shuffled(old(self).state),
            r == shuffled(old(self).state).wrapping_mul(0x2545_F491_4F6C_DD1Du64),
    {
        let mut x: u64 = self.state;
        x = x ^ (x >> 12u64);
        x = x ^ (x << 25u64);
        x = x ^ (x >> 27u64);
        self.state = x;
        x.wrapping_mul(0x2545_F491_4F6C_DD1Du64)
    }
}

/// Lists with the one of a row at a layer replaced.
pub open spec fn put(
    levels: Seq<Seq<Seq<u32>>>,
    i: int,
    l: int,
    list: Seq<u32>,
) -> Seq<Seq<Seq<u32>>> {
    levels.update(i, levels[i].update(l, list))
}

/// Lists after a row was linked with others at a layer, both ways.
pub open spec fn linked(
    levels: Seq<Seq<Seq<u32>>>,
    i: int,
    layer: int,
    picked: Seq<u32>,
) -> Seq<Seq<Seq<u32>>>
    decreases picked.len(),
{
    if picked.len() == 0 {
        levels
    } else {
        let u = linked(levels, i, layer, picked.drop_last());
        let n = picked.last();
        let v = put(u, i, layer, u[i][layer].push(n));
        put(v, n as int, layer, v[n as int][layer].push(i as u32))
    }
}

/// Lists after those of some rows at a layer were cut down to a number.
pub open spec fn trimmed(
    dist: Seq<Seq<u32>>,
    cap: int,
    levels: Seq<Seq<Seq<u32>>>,
    layer: int,
    picked: Seq<u32>,
) -> Seq<Seq<Seq<u32>>>
    decreases picked.len(),
{
    if picked.len() == 0 {
        levels
    } else {
        let u = trimmed(dist, cap, levels, layer, picked.drop_last());
        let n = picked.last() as int;
        if u[n][layer].len() > cap {
            put(u, n, layer, super::hnsw_select::relisted(dist, n, cap, u[n][layer]))
        } else {
            u
        }
    }
}

/// The number of neighbours that a row keeps at a layer.
pub open spec fn cap_at(m: int, layer: int) -> int {
    if layer == 0 {
        2 * m
    } else {
        m
    }
}

/// Lists after a row joined a layer, and where its search began on the next.
pub open spec fn joined(
    dist: Seq<Seq<u32>>,
    m: int,
    ef: int,
    levels: Seq<Seq<Seq<u32>>>,
    i: int,
    ep: u32,
    layer: int,
) -> (Seq<Seq<Seq<u32>>>, u32) {
    let near = super::hnsw_search::found(levels, layer, dist[i], ef, ep);
    let picked = super::hnsw_select::chosen(dist, i, cap_at(m, layer), near);
    (
        trimmed(dist, cap_at(m, layer), linked(levels, i, layer, picked), layer, picked),
        near[0].0,
    )
}

/// Lists after a row joined a layer and all below it.
pub open spec fn joined_down(
    dist: Seq<Seq<u32>>,
    m: int,
    ef: int,
    levels: Seq<Seq<Seq<u32>>>,
    i: int,
    ep: u32,
    layer: int,
) -> Seq<Seq<Seq<u32>>>
    decreases layer + 1,
{
    if layer < 0 {
        levels
    } else {
        let (next, at) = joined(dist, m, ef, levels, i, ep, layer);
        joined_down(dist, m, ef, next, i, at, layer - 1)
    }
}

/// Where a walk downhill ends that comes from a layer and stops above another.
pub open spec fn walked_down(
    levels: Seq<Seq<Seq<u32>>>,
    dist: Seq<u32>,
    ep: u32,
    from: int,
    to: int,
) -> u32
    decreases from - to,
{
    if from <= to {
        ep
    } else {
        walked_down(
            levels,
            dist,
            super::hnsw_search::descent(levels, from, dist, (ep, dist[ep as int])).0,
            from - 1,
            to,
        )
    }
}

/// A graph under construction: its lists, its entry point and its topmost
/// layer.
pub struct Growth {
    pub levels: Seq<Seq<Seq<u32>>>,
    pub entry: u32,
    pub top: int,
}

/// A graph with one more row.
pub open spec fn with_row(
    dist: Seq<Seq<u32>>,
    m: int,
    ef: int,
    heights: Seq<usize>,
    g: Growth,
    i: int,
) -> Growth {
    let h = heights[i] as int;
    let ep = walked_down(g.levels, dist[i], g.entry, g.top, h);
    let low = if h < g.top {
        h
    } else {
        g.top
    };
    Growth {
        levels: joined_down(dist, m, ef, g.levels, i, ep, low),
        entry: if h > g.top {
            i as u32
        } else {
            g.entry
        },
        top: if h > g.top {
            h
        } else {
            g.top
        },
    }
}

/// Empty lists for rows of some heights.
pub open spec fn stacks(heights: Seq<usize>) -> Seq<Seq<Seq<u32>>> {
    Seq::new(
        heights.len(),
        |i: int| Seq::new((heights[i] + 1) as nat, |l: int| Seq::<u32>::empty()),
    )
}

/// The graph of the first rows.
pub open spec fn grown(
    dist: Seq<Seq<u32>>,
    m: int,
    ef: int,
    heights: Seq<usize>,
    n: int,
) -> Growth
    decreases n,
{
    if n <= 1 {
        Growth { levels: stacks(heights), entry: 0, top: heights[0] as int }
    } else {
        with_row(dist, m, ef, heights, grown(dist, m, ef, heights, n - 1), n - 1)
    }
}

/// The rows have the lists of their heights.
pub open spec fn shaped(levels: Seq<Seq<Seq<u32>>>, heights: Seq<usize>) -> bool {
    &&& levels.len() == heights.len()
    &&& levels.len() <= u32::MAX
    &&& forall|a: int| 0 <= a < levels.len() ==> (#[trigger] levels[a]).len() == heights[a] + 1
}

/// A link of a row at a layer leads to another row of that layer. It leads to a
/// row that has joined: one before `i`, or `i` itself above `layer`.
pub open spec fn link_ok(
    levels: Seq<Seq<Seq<u32>>>,
    i: int,
    layer: int,
    a: int,
    l: int,
    t: u32,
) -> bool {
    &&& t < levels.len()
    &&& levels[t as int].len() > l
    &&& t != a
    &&& t < i || (t == i && l > layer)
}

/// All links are well.
pub open spec fn links_ok(levels: Seq<Seq<Seq<u32>>>, i: int, layer: int) -> bool {
    forall|a: int, l: int, k: int|
        0 <= a < levels.len() && 0 <= l < levels[a].len() && 0 <= k < levels[a][l].len()
            ==> link_ok(levels, i, layer, a, l, #[trigger] levels[a][l][k])
}

/// No list is longer than allowed.
pub open spec fn capped(levels: Seq<Seq<Seq<u32>>>, m: int) -> bool {
    forall|a: int, l: int|
        0 <= a < levels.len() && 0 <= l < levels[a].len() ==> (#[trigger] levels[a][l]).len()
            <= cap_at(m, l)
}

/// A row has no links up to a layer.
pub open spec fn unlinked(levels: Seq<Seq<Seq<u32>>>, i: int, layer: int) -> bool {
    forall|l: int|
        0 <= l <= layer && l < levels[i].len() ==> (#[trigger] levels[i][l]).len() == 0
}

/// Two states of the lists agree but for some rows at one layer.
pub open spec fn same_but(
    a: Seq<Seq<Seq<u32>>>,
    b: Seq<Seq<Seq<u32>>>,
    layer: int,
    rows: Set<int>,
) -> bool {
    &&& a.len() == b.len()
    &&& forall|i: int| 0 <= i < a.len() ==> (#[trigger] a[i]).len() == b[i].len()
    &&& forall|i: int, l: int|
        0 <= i < a.len() && 0 <= l < a[i].len() && (l != layer || !rows.contains(i))
            ==> #[trigger] a[i][l] == b[i][l]
}

/// All links are well where a list of links was replaced by one that is well.
proof fn put_links(
    levels: Seq<Seq<Seq<u32>>>,
    i: int,
    layer: int,
    a: int,
    l: int,
    list: Seq<u32>,
)
    requires
        links_ok(levels, i, layer),
        0 <= a < levels.len(),
        0 <= l < levels[a].len(),
        forall|k: int| 0 <= k < list.len() ==> link_ok(levels, i, layer, a, l, #[trigger] list[k]),
    ensures
        links_ok(put(levels, a, l, list), i, layer),
        put(levels, a, l, list).len() == levels.len(),
        forall|b: int|
            0 <= b < levels.len() ==> (#[trigger] put(levels, a, l, list)[b]).len()
                == levels[b].len(),
{
    let p = put(levels, a, l, list);
    assert forall|b: int| 0 <= b < levels.len() implies (#[trigger] p[b]).len()
        == levels[b].len() by {}
    assert forall|b: int, c: int, k: int|
        0 <= b < p.len() && 0 <= c < p[b].len() && 0 <= k < p[b][c].len() implies link_ok(
        p,
        i,
        layer,
        b,
        c,
        #[trigger] p[b][c][k],
    ) by {
        if b == a && c == l {
            assert(p[b][c] == list);
            assert(link_ok(levels, i, layer, a, l, list[k]));
        } else {
            assert(p[b][c] == levels[b][c]);
            assert(link_ok(levels, i, layer, b, c, levels[b][c][k]));
        }
    }
}

/// Links that are well stay so where the row may occur at one more layer.
pub(crate) proof fn links_below(levels: Seq<Seq<Seq<u32>>>, i: int, layer: int)
    requires
        links_ok(levels, i, layer),
    ensures
        links_ok(levels, i, layer - 1),
{
    assert forall|a: int, l: int, k: int|
        0 <= a < levels.len() && 0 <= l < levels[a].len() && 0 <= k
            < levels[a][l].len() implies link_ok(
        levels,
        i,
        layer - 1,
        a,
        l,
        #[trigger] levels[a][l][k],
    ) by {
        assert(link_ok(levels, i, layer, a, l, levels[a][l][k]));
    }
}

/// Rows that a row can be linked with.
pub open spec fn partners(
    levels: Seq<Seq<Seq<u32>>>,
    i: int,
    layer: int,
    picked: Seq<u32>,
) -> bool {
    forall|k: int|
        0 <= k < picked.len() ==> (#[trigger] picked[k]) < i && levels[picked[k] as int].len()
            > layer
}

/// What linking does.
pub(crate) proof fn linked_ok(levels: Seq<Seq<Seq<u32>>>, i: int, layer: int, picked: Seq<u32>)
    requires
        links_ok(levels, i, layer - 1),
        0 <= i < levels.len(),
        i <= u32::MAX,
        0 <= layer < levels[i].len(),
        partners(levels, i, layer, picked),
    ensures
        links_ok(linked(levels, i, layer, picked), i, layer - 1),
        same_but(
            linked(levels, i, layer, picked),
            levels,
            layer,
            Set::new(|a: int| a == i || picked.contains(a as u32)),
        ),
        linked(levels, i, layer, picked)[i][layer] == levels[i][layer] + picked,
        forall|a: int|
            0 <= a < i && layer < levels[a].len() ==> (#[trigger] linked(
                levels,
                i,
                layer,
                picked,
            )[a][layer]).len() >= levels[a][layer].len() + if picked.contains(a as u32) {
                1int
            } else {
                0int
            },
    decreases picked.len(),
{
    let s = linked(levels, i, layer, picked);
    if picked.len() > 0 {
        let q = picked.drop_last();
        let n = picked.last();
        assert(picked[picked.len() - 1] == n);
        assert forall|k: int| 0 <= k < q.len() implies (#[trigger] q[k]) < i
            && levels[q[k] as int].len() > layer by {
            assert(picked[k] < i);
        }
        linked_ok(levels, i, layer, q);
        let u = linked(levels, i, layer, q);
        assert(u[i].len() == levels[i].len());
        assert(u[n as int].len() == levels[n as int].len());
        let mine = u[i][layer].push(n);
        assert forall|k: int| 0 <= k < mine.len() implies link_ok(
            u,
            i,
            layer - 1,
            i,
            layer,
            #[trigger] mine[k],
        ) by {
            if k < u[i][layer].len() {
                assert(link_ok(u, i, layer - 1, i, layer, u[i][layer][k]));
            }
        }
        put_links(u, i, layer - 1, i, layer, mine);
        let v = put(u, i, layer, mine);
        assert(v[n as int] == u[n as int]);
        let theirs = v[n as int][layer].push(i as u32);
        assert(v[i].len() == u[i].len());
        assert forall|k: int| 0 <= k < theirs.len() implies link_ok(
            v,
            i,
            layer - 1,
            n as int,
            layer,
            #[trigger] theirs[k],
        ) by {
            if k < v[n as int][layer].len() {
                assert(link_ok(v, i, layer - 1, n as int, layer, v[n as int][layer][k]));
            }
        }
        put_links(v, i, layer - 1, n as int, layer, theirs);
        assert(s == put(v, n as int, layer, theirs));
        assert(s[i] == v[i]);
        assert(s[i][layer] =~= levels[i][layer] + picked);
        let all = Set::new(|a: int| a == i || picked.contains(a as u32));
        assert forall|a: int| 0 <= a < s.len() implies (#[trigger] s[a]).len()
            == levels[a].len() by {
            assert(v[a].len() == u[a].len());
            assert(u[a].len() == levels[a].len());
        }
        assert forall|a: int, l: int|
            0 <= a < s.len() && 0 <= l < s[a].len() && (l != layer || !all.contains(
                a,
            )) implies #[trigger] s[a][l] == levels[a][l] by {
            if a == n as int && l == layer {
                assert(picked.contains(a as u32));
            }
            if q.contains(a as u32) {
                let k = choose|k: int| 0 <= k < q.len() && q[k] == a as u32;
                assert(picked[k] == a as u32);
                assert(picked.contains(a as u32));
            }
            assert(u[a][l] == levels[a][l]);
            assert(v[a][l] == u[a][l]);
        }
        assert forall|a: int| 0 <= a < i && layer < levels[a].len() implies (
        #[trigger] s[a][layer]).len() >= levels[a][layer].len() + if picked.contains(a as u32) {
            1int
        } else {
            0int
        } by {
            assert(u[a][layer].len() >= levels[a][layer].len() + if q.contains(a as u32) {
                1int
            } else {
                0int
            });
            assert(v[a] == u[a]);
            if picked.contains(a as u32) && a != n as int {
                let k = choose|k: int| 0 <= k < picked.len() && picked[k] == a as u32;
                assert(q[k] == a as u32);
                assert(q.contains(a as u32));
            }
        }
    } else {
        assert(s[i][layer] =~= levels[i][layer] + picked);
    }
}

/// What trimming does.
pub(crate) proof fn trimmed_ok(
    dist: Seq<Seq<u32>>,
    cap: int,
    levels: Seq<Seq<Seq<u32>>>,
    i: int,
    layer: int,
    picked: Seq<u32>,
)
    requires
        cap >= 1,
        links_ok(levels, i, layer - 1),
        0 <= i < levels.len(),
        0 <= layer,
        partners(levels, i, layer, picked),
    ensures
        links_ok(trimmed(dist, cap, levels, layer, picked), i, layer - 1),
        same_but(
            trimmed(dist, cap, levels, layer, picked),
            levels,
            layer,
            Set::new(|a: int| picked.contains(a as u32)),
        ),
        forall|k: int|
            0 <= k < picked.len() ==> trimmed(
                dist,
                cap,
                levels,
                layer,
                picked,
            )[#[trigger] picked[k] as int][layer].len() <= cap,
        forall|a: int|
            0 <= a < levels.len() && layer < levels[a].len() && levels[a][layer].len() > 0 ==> (
            #[trigger] trimmed(dist, cap, levels, layer, picked)[a][layer]).len() > 0,
    decreases picked.len(),
{
    let s = trimmed(dist, cap, levels, layer, picked);
    if picked.len() > 0 {
        let q = picked.drop_last();
        let n = picked.last() as int;
        assert(picked[picked.len() - 1] == n);
        assert forall|k: int| 0 <= k < q.len() implies (#[trigger] q[k]) < i
            && levels[q[k] as int].len() > layer by {
            assert(picked[k] < i);
        }
        trimmed_ok(dist, cap, levels, i, layer, q);
        let u = trimmed(dist, cap, levels, layer, q);
        assert(u[n].len() == levels[n].len());
        let list = u[n][layer];
        assert forall|k: int| 0 <= k < list.len() implies #[trigger] list[k] != n by {
            assert(link_ok(u, i, layer - 1, n, layer, u[n][layer][k]));
        }
        super::hnsw_select::relisted_ok(dist, n, cap, list);
        let new = super::hnsw_select::relisted(dist, n, cap, list);
        assert forall|k: int| 0 <= k < new.len() implies link_ok(
            u,
            i,
            layer - 1,
            n,
            layer,
            #[trigger] new[k],
        ) by {
            assert(list.contains(new[k]));
            let j = choose|j: int| 0 <= j < list.len() && list[j] == new[k];
            assert(link_ok(u, i, layer - 1, n, layer, u[n][layer][j]));
        }
        put_links(u, i, layer - 1, n, layer, new);
        assert forall|a: int| 0 <= a < s.len() implies (#[trigger] s[a]).len()
            == levels[a].len() by {
            assert(u[a].len() == levels[a].len());
        }
        let all = Set::new(|a: int| picked.contains(a as u32));
        assert forall|a: int, l: int|
            0 <= a < s.len() && 0 <= l < s[a].len() && (l != layer || !all.contains(
                a,
            )) implies #[trigger] s[a][l] == levels[a][l] by {
            if q.contains(a as u32) {
                let k = choose|k: int| 0 <= k < q.len() && q[k] == a as u32;
                assert(picked[k] == a as u32);
            }
            assert(u[a][l] == levels[a][l]);
            if a == n && l == layer {
                assert(picked.contains(a as u32));
            }
        }
        assert forall|k: int| 0 <= k < picked.len() implies s[#[trigger] picked[k] as int][layer].len()
            <= cap by {
            if picked[k] as int != n {
                assert(q[k] == picked[k]);
                assert(u[q[k] as int][layer].len() <= cap);
            }
        }
        assert forall|a: int|
            0 <= a < levels.len() && layer < levels[a].len() && levels[a][layer].len() > 0 implies (
        #[trigger] s[a][layer]).len() > 0 by {
            assert(u[a][layer].len() > 0);
        }
    }
}

/// What holds while a row joins the layers from the top down.
pub open spec fn joining(
    levels: Seq<Seq<Seq<u32>>>,
    m: int,
    heights: Seq<usize>,
    i: int,
    layer: int,
) -> bool {
    &&& shaped(levels, heights)
    &&& links_ok(levels, i, layer)
    &&& capped(levels, m)
    &&& unlinked(levels, i, layer)
}

/// Every row before `n` has a link at layer 0.
pub open spec fn all_linked(levels: Seq<Seq<Seq<u32>>>, n: int) -> bool {
    forall|a: int| 0 <= a < n ==> (#[trigger] levels[a][0]).len() > 0
}

/// What joining a layer does.
#[verifier::rlimit(40)]
#[verifier::spinoff_prover]
pub(crate) proof fn joined_ok(
    dist: Seq<Seq<u32>>,
    m: int,
    ef: int,
    levels: Seq<Seq<Seq<u32>>>,
    heights: Seq<usize>,
    i: int,
    ep: u32,
    layer: int,
)
    requires
        m >= 2,
        ef >= 1,
        joining(levels, m, heights, i, layer),
        0 < i < levels.len(),
        i <= u32::MAX,
        0 <= layer < levels[i].len(),
        ep < i,
        levels[ep as int].len() > layer,
    ensures
        ({
            let (next, at) = joined(dist, m, ef, levels, i, ep, layer);
            &&& joining(next, m, heights, i, layer - 1)
            &&& at < i
            &&& levels[at as int].len() > layer
            &&& layer == 0 && (i >= 2 ==> all_linked(levels, i)) ==> all_linked(next, i + 1)
            &&& layer > 0 && (i >= 2 ==> all_linked(levels, i)) ==> (i >= 2 ==> all_linked(
                next,
                i,
            ))
        }),
{
    let near = super::hnsw_search::found(levels, layer, dist[i], ef, ep);
    let cap = cap_at(m, layer);
    let picked = super::hnsw_select::chosen(dist, i, cap, near);
    picked_before(dist, m, ef, levels, heights, i, ep, layer);
    super::hnsw_select::chosen_ok(dist, i, cap, near);
    assert(near[0].0 != i);
    assert(picked.len() >= 1);
    links_below(levels, i, layer);
    linked_ok(levels, i, layer, picked);
    let mid = linked(levels, i, layer, picked);
    assert forall|k: int| 0 <= k < picked.len() implies (#[trigger] picked[k]) < i
        && mid[picked[k] as int].len() > layer by {
        assert(mid[picked[k] as int].len() == levels[picked[k] as int].len());
    }
    trimmed_ok(dist, cap, mid, i, layer, picked);
    let next = trimmed(dist, cap, mid, layer, picked);
    assert(shaped(next, heights)) by {
        assert forall|a: int| 0 <= a < next.len() implies (#[trigger] next[a]).len()
            == heights[a] + 1 by {
            assert(mid[a].len() == levels[a].len());
            assert(levels[a].len() == heights[a] + 1);
        }
    }
    assert(!picked.contains(i as u32)) by {
        if picked.contains(i as u32) {
            let k = choose|k: int| 0 <= k < picked.len() && picked[k] == i as u32;
            assert(picked[k] < i);
        }
    }
    assert(mid[i].len() == levels[i].len());
    assert(next[i][layer] == mid[i][layer]);
    assert(levels[i][layer].len() == 0);
    assert(mid[i][layer].len() == picked.len());
    assert(capped(next, m)) by {
        assert forall|a: int, l: int| 0 <= a < next.len() && 0 <= l < next[a].len() implies (
        #[trigger] next[a][l]).len() <= cap_at(m, l) by {
            assert(next[a].len() == mid[a].len() == levels[a].len());
            assert(levels[a][l].len() <= cap_at(m, l));
            if l == layer && picked.contains(a as u32) {
                let k = choose|k: int| 0 <= k < picked.len() && picked[k] == a as u32;
                assert(next[picked[k] as int][layer].len() <= cap);
            } else {
                assert(next[a][l] == mid[a][l]);
                if !(l == layer && a == i) {
                    assert(mid[a][l] == levels[a][l]);
                }
            }
        }
    }
    assert(unlinked(next, i, layer - 1)) by {
        assert forall|l: int| 0 <= l <= layer - 1 && l < next[i].len() implies (
        #[trigger] next[i][l]).len() == 0 by {
            assert(next[i][l] == mid[i][l]);
            assert(mid[i][l] == levels[i][l]);
        }
    }
    if i >= 2 ==> all_linked(levels, i) {
        if layer == 0 {
            assert forall|a: int| 0 <= a < i + 1 implies (#[trigger] next[a][0]).len() > 0 by {
                assert(next[a].len() == mid[a].len() == levels[a].len() == heights[a] + 1);
                if a < i {
                    if i >= 2 {
                        assert(levels[a][0].len() > 0);
                    } else {
                        assert(picked[0] == 0);
                        assert(picked.contains(a as u32));
                    }
                    assert(mid[a][0].len() > 0);
                }
                assert(mid[a][0].len() > 0);
            }
        } else {
            assert forall|a: int| i >= 2 && 0 <= a < i implies (#[trigger] next[a][0]).len()
                > 0 by {
                assert(next[a].len() == mid[a].len() == levels[a].len() == heights[a] + 1);
                assert(levels[a][0].len() > 0);
                assert(next[a][0] == mid[a][0]);
                assert(mid[a][0] == levels[a][0]);
            }
        }
    }
}

/// What joining all layers does.
proof fn joined_down_ok(
    dist: Seq<Seq<u32>>,
    m: int,
    ef: int,
    levels: Seq<Seq<Seq<u32>>>,
    heights: Seq<usize>,
    i: int,
    ep: u32,
    layer: int,
)
    requires
        m >= 2,
        ef >= 1,
        joining(levels, m, heights, i, layer),
        0 < i < levels.len(),
        i <= u32::MAX,
        0 <= layer < levels[i].len(),
        ep < i,
        levels[ep as int].len() > layer,
        i >= 2 ==> all_linked(levels, i),
    ensures
        joining(joined_down(dist, m, ef, levels, i, ep, layer), m, heights, i, -1),
        all_linked(joined_down(dist, m, ef, levels, i, ep, layer), i + 1),
    decreases layer,
{
    joined_ok(dist, m, ef, levels, heights, i, ep, layer);
    let (next, at) = joined(dist, m, ef, levels, i, ep, layer);
    if layer > 0 {
        assert(next[i].len() == heights[i] + 1);
        assert(levels[i].len() == heights[i] + 1);
        assert(next[at as int].len() == heights[at as int] + 1);
        assert(levels[at as int].len() == heights[at as int] + 1);
        joined_down_ok(dist, m, ef, next, heights, i, at, layer - 1);
    } else {
        assert(joined_down(dist, m, ef, next, i, at, -1) == next);
    }
}

/// A walk down the layers ends at a row of the layer below it.
proof fn walked_down_ok(
    levels: Seq<Seq<Seq<u32>>>,
    dist: Seq<u32>,
    ep: u32,
    i: int,
    from: int,
    to: int,
)
    requires
        links_ok(levels, i, from),
        0 <= to,
        ep < i <= levels.len(),
        levels[ep as int].len() > from,
    ensures
        walked_down(levels, dist, ep, from, to) < i,
        to <= from ==> levels[walked_down(levels, dist, ep, from, to) as int].len() > to,
        to > from ==> walked_down(levels, dist, ep, from, to) == ep,
    decreases from - to,
{
    if from > to {
        descent_before(levels, from, dist, (ep, dist[ep as int]), i);
        let at = super::hnsw_search::descent(levels, from, dist, (ep, dist[ep as int])).0;
        links_below(levels, i, from);
        walked_down_ok(levels, dist, at, i, from - 1, to);
    }
}

/// A walk downhill stays among the rows before one that has not joined.
proof fn descent_before(
    levels: Seq<Seq<Seq<u32>>>,
    layer: int,
    dist: Seq<u32>,
    at: (u32, u32),
    i: int,
)
    requires
        links_ok(levels, i, layer),
        0 <= layer,
        at.0 < i <= levels.len(),
        levels[at.0 as int].len() > layer,
    ensures
        super::hnsw_search::descent(levels, layer, dist, at).0 < i,
        levels[super::hnsw_search::descent(levels, layer, dist, at).0 as int].len() > layer,
    decreases super::metric::number(at.1) + super::metric::SIGN,
{
    let list = super::hnsw::neighbours_of(levels, at.0 as int, layer);
    let next = super::hnsw_search::sweep(dist, list, at);
    super::hnsw_search::sweep_found(dist, list, at);
    if super::metric::less(next.1, at.1) {
        let k = choose|k: int| 0 <= k < list.len() && list[k] == next.0;
        assert(link_ok(levels, i, layer, at.0 as int, layer, levels[at.0 as int][layer][k]));
        descent_before(levels, layer, dist, next, i);
    }
}

/// What holds of a graph of the first rows.
pub open spec fn growth_ok(g: Growth, m: int, heights: Seq<usize>, n: int) -> bool {
    &&& shaped(g.levels, heights)
    &&& links_ok(g.levels, n, g.top)
    &&& capped(g.levels, m)
    &&& forall|a: int, l: int|
        n <= a < g.levels.len() && 0 <= l < g.levels[a].len() ==> (
        #[trigger] g.levels[a][l]).len() == 0
    &&& 0 <= g.entry < n
    &&& heights[g.entry as int] == g.top
    &&& forall|a: int| 0 <= a < n ==> #[trigger] heights[a] <= g.top
    &&& forall|a: int| 0 <= a < g.entry ==> #[trigger] heights[a] < g.top
    &&& n >= 2 ==> all_linked(g.levels, n)
}

/// A graph stays well with one more row.
pub(crate) proof fn with_row_ok(
    dist: Seq<Seq<u32>>,
    m: int,
    ef: int,
    heights: Seq<usize>,
    g: Growth,
    i: int,
)
    requires
        m >= 2,
        ef >= 1,
        0 < i < heights.len(),
        i <= u32::MAX,
        growth_ok(g, m, heights, i),
    ensures
        growth_ok(with_row(dist, m, ef, heights, g, i), m, heights, i + 1),
        joining(
            g.levels,
            m,
            heights,
            i,
            if heights[i] < g.top {
                heights[i] as int
            } else {
                g.top
            },
        ),
        ({
            let ep = walked_down(g.levels, dist[i], g.entry, g.top, heights[i] as int);
            let low = if heights[i] < g.top {
                heights[i] as int
            } else {
                g.top
            };
            ep < i && g.levels[ep as int].len() > low
        }),
{
    let h = heights[i] as int;
    let low = if h < g.top {
        h
    } else {
        g.top
    };
    let ep = walked_down(g.levels, dist[i], g.entry, g.top, h);
    assert(g.levels[g.entry as int].len() == heights[g.entry as int] + 1);
    walked_down_ok(g.levels, dist[i], g.entry, i, g.top, h);
    assert forall|a: int, l: int, k: int|
        0 <= a < g.levels.len() && 0 <= l < g.levels[a].len() && 0 <= k
            < g.levels[a][l].len() implies link_ok(
        g.levels,
        i,
        low,
        a,
        l,
        #[trigger] g.levels[a][l][k],
    ) by {
        assert(link_ok(g.levels, i, g.top, a, l, g.levels[a][l][k]));
        if g.levels[a][l][k] == i && l > g.top {
            // No row that has joined reaches above the topmost layer.
            if a < i {
                assert(g.levels[a].len() == heights[a] + 1);
            } else {
                assert(g.levels[a][l].len() == 0);
            }
        }
    }
    assert(unlinked(g.levels, i, low)) by {
        assert forall|l: int| 0 <= l <= low && l < g.levels[i].len() implies (
        #[trigger] g.levels[i][l]).len() == 0 by {}
    }
    assert(g.levels[i].len() == heights[i] + 1);
    joined_down_ok(dist, m, ef, g.levels, heights, i, ep, low);
    joined_down_keeps(dist, m, ef, g.levels, heights, i, ep, low);
    let r = with_row(dist, m, ef, heights, g, i);
    assert forall|a: int, l: int, k: int|
        0 <= a < r.levels.len() && 0 <= l < r.levels[a].len() && 0 <= k
            < r.levels[a][l].len() implies link_ok(
        r.levels,
        i + 1,
        r.top,
        a,
        l,
        #[trigger] r.levels[a][l][k],
    ) by {
        assert(link_ok(r.levels, i, -1, a, l, r.levels[a][l][k]));
    }
    assert forall|a: int, l: int|
        i + 1 <= a < r.levels.len() && 0 <= l < r.levels[a].len() implies (
    #[trigger] r.levels[a][l]).len() == 0 by {
        assert(r.levels[a] == g.levels[a]);
        assert(g.levels[a][l].len() == 0);
    }
}

/// Rows that have not joined keep their empty lists.
proof fn joined_down_keeps(
    dist: Seq<Seq<u32>>,
    m: int,
    ef: int,
    levels: Seq<Seq<Seq<u32>>>,
    heights: Seq<usize>,
    i: int,
    ep: u32,
    layer: int,
)
    requires
        m >= 2,
        ef >= 1,
        joining(levels, m, heights, i, layer),
        0 < i < levels.len(),
        i <= u32::MAX,
        layer < levels[i].len(),
        layer >= 0 ==> ep < i && levels[ep as int].len() > layer,
    ensures
        joined_down(dist, m, ef, levels, i, ep, layer).len() == levels.len(),
        forall|a: int|
            i < a < levels.len() ==> #[trigger] joined_down(
                dist,
                m,
                ef,
                levels,
                i,
                ep,
                layer,
            )[a] == levels[a],
    decreases layer + 1,
{
    if layer >= 0 {
        joined_ok(dist, m, ef, levels, heights, i, ep, layer);
        let (next, at) = joined(dist, m, ef, levels, i, ep, layer);
        joined_rows(dist, m, ef, levels, heights, i, ep, layer);
        assert(next[i].len() == heights[i] + 1);
        assert(levels[i].len() == heights[i] + 1);
        assert(next[at as int].len() == heights[at as int] + 1);
        assert(levels[at as int].len() == heights[at as int] + 1);
        joined_down_keeps(dist, m, ef, next, heights, i, at, layer - 1);
        let end = joined_down(dist, m, ef, levels, i, ep, layer);
        assert forall|a: int| i < a < levels.len() implies #[trigger] end[a] == levels[a] by {
            assert(end[a] == next[a]);
        }
    }
}

/// Joining a layer leaves the rows after it alone.
proof fn joined_rows(
    dist: Seq<Seq<u32>>,
    m: int,
    ef: int,
    levels: Seq<Seq<Seq<u32>>>,
    heights: Seq<usize>,
    i: int,
    ep: u32,
    layer: int,
)
    requires
        m >= 2,
        ef >= 1,
        joining(levels, m, heights, i, layer),
        0 < i < levels.len(),
        i <= u32::MAX,
        0 <= layer < levels[i].len(),
        ep < i,
        levels[ep as int].len() > layer,
    ensures
        joined(dist, m, ef, levels, i, ep, layer).0.len() == levels.len(),
        forall|a: int|
            i < a < levels.len() ==> #[trigger] joined(
                dist,
                m,
                ef,
                levels,
                i,
                ep,
                layer,
            ).0[a] == levels[a],
{
    let near = super::hnsw_search::found(levels, layer, dist[i], ef, ep);
    let cap = cap_at(m, layer);
    let picked = super::hnsw_select::chosen(dist, i, cap, near);
    picked_before(dist, m, ef, levels, heights, i, ep, layer);
    links_below(levels, i, layer);
    linked_ok(levels, i, layer, picked);
    let mid = linked(levels, i, layer, picked);
    assert forall|k: int| 0 <= k < picked.len() implies (#[trigger] picked[k]) < i
        && mid[picked[k] as int].len() > layer by {
        assert(mid[picked[k] as int].len() == levels[picked[k] as int].len());
    }
    trimmed_ok(dist, cap, mid, i, layer, picked);
    let next = trimmed(dist, cap, mid, layer, picked);
    assert forall|a: int| i < a < levels.len() implies #[trigger] next[a] == levels[a] by {
        assert(next[a].len() == mid[a].len() == levels[a].len());
        if picked.contains(a as u32) {
            let k = choose|k: int| 0 <= k < picked.len() && picked[k] == a as u32;
            assert(picked[k] < i);
        }
        assert(next[a] =~= levels[a]) by {
            assert forall|l: int| 0 <= l < next[a].len() implies #[trigger] next[a][l]
                == levels[a][l] by {
                assert(next[a][l] == mid[a][l]);
                assert(mid[a][l] == levels[a][l]);
            }
        }
    }
}

/// The rows that a row is linked with came before it.
pub(crate) proof fn picked_before(
    dist: Seq<Seq<u32>>,
    m: int,
    ef: int,
    levels: Seq<Seq<Seq<u32>>>,
    heights: Seq<usize>,
    i: int,
    ep: u32,
    layer: int,
)
    requires
        m >= 2,
        ef >= 1,
        joining(levels, m, heights, i, layer),
        0 < i < levels.len(),
        i <= u32::MAX,
        0 <= layer < levels[i].len(),
        ep < i,
        levels[ep as int].len() > layer,
    ensures
        partners(
            levels,
            i,
            layer,
            super::hnsw_select::chosen(
                dist,
                i,
                cap_at(m, layer),
                super::hnsw_search::found(levels, layer, dist[i], ef, ep),
            ),
        ),
        forall|k: int|
            0 <= k < super::hnsw_search::found(levels, layer, dist[i], ef, ep).len() ==> (
            #[trigger] super::hnsw_search::found(levels, layer, dist[i], ef, ep)[k]).0 < i
                && levels[super::hnsw_search::found(levels, layer, dist[i], ef, ep)[k].0 as int].len()
                > layer,
        super::hnsw_search::found(levels, layer, dist[i], ef, ep).len() >= 1,
        super::hnsw_search::layered(levels),
{
    let near = super::hnsw_search::found(levels, layer, dist[i], ef, ep);
    let cap = cap_at(m, layer);
    let picked = super::hnsw_select::chosen(dist, i, cap, near);
    assert(super::hnsw_search::layered(levels)) by {
        assert forall|a: int, l: int, k: int|
            0 <= a < levels.len() && 0 <= l < levels[a].len() && 0 <= k
                < levels[a][l].len() implies (#[trigger] levels[a][l][k]) < levels.len()
            && levels[levels[a][l][k] as int].len() > l by {
            assert(link_ok(levels, i, layer, a, l, levels[a][l][k]));
        }
    }
    // Rows from `i` on do not occur at this layer.
    assert forall|avoid: int| avoid >= i implies #[trigger] super::hnsw_search::absent(
        levels,
        layer,
        avoid,
    ) by {
        assert forall|a: int, k: int|
            0 <= a < levels.len() && 0 <= layer < levels[a].len() && 0 <= k
                < levels[a][layer].len() implies #[trigger] levels[a][layer][k] != avoid by {
            assert(link_ok(levels, i, layer, a, layer, levels[a][layer][k]));
        }
    }
    assert forall|k: int| 0 <= k < near.len() implies (#[trigger] near[k]).0 < i
        && levels[near[k].0 as int].len() > layer by {
        let avoid = near[k].0 as int;
        if avoid >= i {
            assert(super::hnsw_search::absent(levels, layer, avoid));
            super::hnsw_search::found_ok(levels, layer, avoid, dist[i], ef, ep);
            assert(near[k].0 != avoid);
        }
        assert(super::hnsw_search::absent(levels, layer, i));
        super::hnsw_search::found_ok(levels, layer, i, dist[i], ef, ep);
        assert(near[k].0 < levels.len());
    }
    assert(super::hnsw_search::absent(levels, layer, i));
    super::hnsw_search::found_ok(levels, layer, i, dist[i], ef, ep);
    super::hnsw_select::chosen_ok(dist, i, cap, near);
    assert(near[0].0 != i);
    assert(picked.len() >= 1);
    assert forall|k: int| 0 <= k < picked.len() implies (#[trigger] picked[k]) < i
        && levels[picked[k] as int].len() > layer by {
        let j = choose|j: int| 0 <= j < near.len() && (#[trigger] near[j]).0 == picked[k];
        assert(near[j].0 < i);
    }
}

/// A graph of some rows links rows to other rows of the same layer, keeps no
/// more links than allowed, and leaves no row without a link once there are
/// two.
pub proof fn grown_ok(dist: Seq<Seq<u32>>, m: int, ef: int, heights: Seq<usize>, n: int)
    requires
        m >= 2,
        ef >= 1,
        1 <= n <= heights.len() <= u32::MAX,
    ensures
        growth_ok(grown(dist, m, ef, heights, n), m, heights, n),
    decreases n,
{
    if n > 1 {
        grown_ok(dist, m, ef, heights, n - 1);
        with_row_ok(dist, m, ef, heights, grown(dist, m, ef, heights, n - 1), n - 1);
    } else {
        let g = grown(dist, m, ef, heights, n);
        assert forall|a: int| 0 <= a < g.levels.len() implies (#[trigger] g.levels[a]).len()
            == heights[a] + 1 by {}
        assert forall|a: int, l: int|
            0 <= a < g.levels.len() && 0 <= l < g.levels[a].len() implies (
        #[trigger] g.levels[a][l]).len() == 0 by {}
    }
}

/// A graph that is well has no error.
proof fn growth_without_error(g: Growth, m: int, heights: Seq<usize>)
    requires
        heights.len() > 0,
        growth_ok(g, m, heights, heights.len() as int),
    ensures
        super::hnsw::rows_error(g.levels, g.levels.len() as int) is None,
        super::hnsw::in_range(g.levels, g.levels.len() as int),
{
    let n = g.levels.len() as int;
    assert forall|i: int, l: int, k: int|
        0 <= i < g.levels.len() && 0 <= l < g.levels[i].len() && 0 <= k
            < g.levels[i][l].len() implies #[trigger] g.levels[i][l][k] < n by {
        assert(link_ok(g.levels, n, g.top, i, l, g.levels[i][l][k]));
    }
    super::hnsw::no_error_in_range(g.levels, n);
}

/// Adds a link to a row at a layer.
fn push_link(graph: &mut Hnsw, i: usize, layer: usize, n: u32)
    requires
        i < old(graph)@.levels.len(),
        layer < old(graph)@.levels[i as int].len(),
    ensures
        final(graph)@ == (super::hnsw::HnswView {
            levels: put(
                old(graph)@.levels,
                i as int,
                layer as int,
                old(graph)@.levels[i as int][layer as int].push(n),
            ),
            ..old(graph)@
        }),
{
    let ghost before = graph@.levels;
    graph.levels[i][layer].push(n);
    proof {
        let after = graph@.levels;
        let want = put(before, i as int, layer as int, before[i as int][layer as int].push(n));
        assert forall|a: int| 0 <= a < after.len() implies #[trigger] after[a] == want[a] by {
            assert(after[a] =~= want[a]);
        }
        assert(after =~= want);
    }
}

/// Replaces the links of a row at a layer.
fn set_links(graph: &mut Hnsw, i: usize, layer: usize, list: Vec<u32>)
    requires
        i < old(graph)@.levels.len(),
        layer < old(graph)@.levels[i as int].len(),
    ensures
        final(graph)@ == (super::hnsw::HnswView {
            levels: put(old(graph)@.levels, i as int, layer as int, list@),
            ..old(graph)@
        }),
{
    let ghost before = graph@.levels;
    graph.levels[i][layer] = list;
    proof {
        let after = graph@.levels;
        let want = put(before, i as int, layer as int, list@);
        assert forall|a: int| 0 <= a < after.len() implies #[trigger] after[a] == want[a] by {
            assert(after[a] =~= want[a]);
        }
        assert(after =~= want);
    }
}

/// Links a row with others at a layer, both ways.
fn link_all(graph: &mut Hnsw, i: usize, layer: usize, picked: &Vec<u32>)
    requires
        0 <= i < old(graph)@.levels.len(),
        i <= u32::MAX,
        layer < old(graph)@.levels[i as int].len(),
        links_ok(old(graph)@.levels, i as int, layer - 1),
        partners(old(graph)@.levels, i as int, layer as int, picked@),
    ensures
        final(graph)@ == (super::hnsw::HnswView {
            levels: linked(old(graph)@.levels, i as int, layer as int, picked@),
            ..old(graph)@
        }),
{
    let ghost first = graph@.levels;
    let mut k: usize = 0;
    assert(picked@.take(0) =~= Seq::empty());
    while k < picked.len()
        invariant
            k <= picked@.len(),
            first == old(graph)@.levels,
            0 <= i < first.len(),
            i <= u32::MAX,
            layer < first[i as int].len(),
            links_ok(first, i as int, layer - 1),
            partners(first, i as int, layer as int, picked@),
            graph@ == (super::hnsw::HnswView {
                levels: linked(first, i as int, layer as int, picked@.take(k as int)),
                ..old(graph)@
            }),
        decreases picked@.len() - k,
    {
        let n = picked[k];
        proof {
            let q = picked@.take(k as int);
            assert(picked@.take(k + 1).drop_last() =~= q);
            assert forall|j: int| 0 <= j < q.len() implies (#[trigger] q[j]) < i
                && first[q[j] as int].len() > layer by {
                assert(picked@[j] < i);
            }
            linked_ok(first, i as int, layer as int, q);
            assert(picked@[k as int] < i);
            assert(graph@.levels[n as int].len() == first[n as int].len());
            assert(graph@.levels[i as int].len() == first[i as int].len());
        }
        push_link(graph, i, layer, n);
        push_link(graph, n as usize, layer, i as u32);
        k = k + 1;
    }
    assert(picked@.take(k as int) =~= picked@);
}

/// Cuts down the lists of some rows at a layer.
fn trim_all<G: Fn(usize, usize) -> u32>(
    graph: &mut Hnsw,
    g: &G,
    i: usize,
    layer: usize,
    picked: &Vec<u32>,
    cap: usize,
)
    requires
        super::distance::answers_pairs(*g, old(graph)@.levels.len() as int),
        cap >= 1,
        i < old(graph)@.levels.len(),
        links_ok(old(graph)@.levels, i as int, layer - 1),
        partners(old(graph)@.levels, i as int, layer as int, picked@),
    ensures
        final(graph)@ == (super::hnsw::HnswView {
            levels: trimmed(
                super::distance::pairs(*g, old(graph)@.levels.len() as int),
                cap as int,
                old(graph)@.levels,
                layer as int,
                picked@,
            ),
            ..old(graph)@
        }),
{
    let ghost first = graph@.levels;
    let ghost count = first.len() as int;
    let ghost dist = super::distance::pairs(*g, count);
    let mut k: usize = 0;
    assert(picked@.take(0) =~= Seq::empty());
    while k < picked.len()
        invariant
            k <= picked@.len(),
            cap >= 1,
            first == old(graph)@.levels,
            count == first.len(),
            dist == super::distance::pairs(*g, count),
            super::distance::answers_pairs(*g, count),
            i < first.len(),
            links_ok(first, i as int, layer - 1),
            partners(first, i as int, layer as int, picked@),
            graph@ == (super::hnsw::HnswView {
                levels: trimmed(
                    dist,
                    cap as int,
                    first,
                    layer as int,
                    picked@.take(k as int),
                ),
                ..old(graph)@
            }),
        decreases picked@.len() - k,
    {
        let n = picked[k] as usize;
        let ghost now = graph@.levels;
        proof {
            let q = picked@.take(k as int);
            assert(picked@.take(k + 1).drop_last() =~= q);
            assert forall|j: int| 0 <= j < q.len() implies (#[trigger] q[j]) < i
                && first[q[j] as int].len() > layer by {
                assert(picked@[j] < i);
            }
            trimmed_ok(dist, cap as int, first, i as int, layer as int, q);
            assert(picked@[k as int] < i);
            assert(now[n as int].len() == first[n as int].len());
            assert forall|j: int| 0 <= j < now[n as int][layer as int].len() implies (
            #[trigger] now[n as int][layer as int][j]) < count by {
                assert(link_ok(
                    now,
                    i as int,
                    layer - 1,
                    n as int,
                    layer as int,
                    now[n as int][layer as int][j],
                ));
            }
        }
        assert(graph.levels@[n as int]@[layer as int]@ == now[n as int][layer as int]);
        if graph.levels[n][layer].len() > cap {
            let list = relist(g, n, &graph.levels[n][layer], cap, Ghost(count));
            set_links(graph, n, layer, list);
        }
        k = k + 1;
    }
    assert(picked@.take(k as int) =~= picked@);
}

/// Lets a row join a layer.
fn join_layer<G: Fn(usize, usize) -> u32>(
    graph: &mut Hnsw,
    g: &G,
    m: usize,
    ef: usize,
    i: usize,
    ep: u32,
    layer: usize,
    Ghost(heights): Ghost<Seq<usize>>,
) -> (at: u32)
    requires
        super::distance::answers_pairs(*g, old(graph)@.levels.len() as int),
        2 <= m <= u32::MAX / 2,
        ef >= 1,
        joining(old(graph)@.levels, m as int, heights, i as int, layer as int),
        0 < i < old(graph)@.levels.len(),
        layer < old(graph)@.levels[i as int].len(),
        ep < i,
        old(graph)@.levels[ep as int].len() > layer,
    ensures
        final(graph)@ == (super::hnsw::HnswView {
            levels: joined(
                super::distance::pairs(*g, old(graph)@.levels.len() as int),
                m as int,
                ef as int,
                old(graph)@.levels,
                i as int,
                ep,
                layer as int,
            ).0,
            ..old(graph)@
        }),
        at == joined(
            super::distance::pairs(*g, old(graph)@.levels.len() as int),
            m as int,
            ef as int,
            old(graph)@.levels,
            i as int,
            ep,
            layer as int,
        ).1,
{
    let ghost levels = graph@.levels;
    let ghost count = levels.len() as int;
    let ghost dist = super::distance::pairs(*g, count);
    proof {
        picked_before(dist, m as int, ef as int, levels, heights, i as int, ep, layer as int);
        links_below(levels, i as int, layer as int);
    }
    let near = search_layer(graph, g, i, ep, ef, layer);
    let cap: usize = if layer == 0 {
        2 * m
    } else {
        m
    };
    let picked = select_neighbours(g, i, &near, cap, Ghost(count));
    link_all(graph, i, layer, &picked);
    proof {
        linked_ok(levels, i as int, layer as int, picked@);
        let mid = graph@.levels;
        assert forall|k: int| 0 <= k < picked@.len() implies (#[trigger] picked@[k]) < i
            && mid[picked@[k] as int].len() > layer by {
            assert(mid[picked@[k] as int].len() == levels[picked@[k] as int].len());
        }
    }
    trim_all(graph, g, i, layer, &picked, cap);
    near[0].0
}

/// Lets a row join a layer and all below it.
fn join_down<G: Fn(usize, usize) -> u32>(
    graph: &mut Hnsw,
    g: &G,
    m: usize,
    ef: usize,
    i: usize,
    ep: u32,
    low: usize,
    Ghost(heights): Ghost<Seq<usize>>,
)
    requires
        super::distance::answers_pairs(*g, old(graph)@.levels.len() as int),
        2 <= m <= u32::MAX / 2,
        ef >= 1,
        joining(old(graph)@.levels, m as int, heights, i as int, low as int),
        0 < i < old(graph)@.levels.len(),
        low < old(graph)@.levels[i as int].len(),
        ep < i,
        old(graph)@.levels[ep as int].len() > low,
    ensures
        final(graph)@ == (super::hnsw::HnswView {
            levels: joined_down(
                super::distance::pairs(*g, old(graph)@.levels.len() as int),
                m as int,
                ef as int,
                old(graph)@.levels,
                i as int,
                ep,
                low as int,
            ),
            ..old(graph)@
        }),
{
    let ghost first = graph@.levels;
    let ghost count = first.len() as int;
    let ghost dist = super::distance::pairs(*g, count);
    let ghost end = joined_down(dist, m as int, ef as int, first, i as int, ep, low as int);
    let mut at: u32 = ep;
    let mut layer: usize = low;
    loop
        invariant_except_break
            joining(graph@.levels, m as int, heights, i as int, layer as int),
            layer < graph@.levels[i as int].len(),
            at < i,
            graph@.levels[at as int].len() > layer,
            end == joined_down(
                dist,
                m as int,
                ef as int,
                graph@.levels,
                i as int,
                at,
                layer as int,
            ),
        invariant
            first == old(graph)@.levels,
            count == first.len(),
            dist == super::distance::pairs(*g, count),
            super::distance::answers_pairs(*g, count),
            2 <= m <= u32::MAX / 2,
            ef >= 1,
            graph@ == (super::hnsw::HnswView { levels: graph@.levels, ..old(graph)@ }),
            graph@.levels.len() == count,
            0 < i < count,
        ensures
            graph@.levels == end,
        decreases layer,
    {
        let ghost before = graph@.levels;
        proof {
            joined_ok(
                dist,
                m as int,
                ef as int,
                before,
                heights,
                i as int,
                at,
                layer as int,
            );
        }
        at = join_layer(graph, g, m, ef, i, at, layer, Ghost(heights));
        proof {
            let now = graph@.levels;
            assert(now[i as int].len() == heights[i as int] + 1);
            assert(before[i as int].len() == heights[i as int] + 1);
            assert(now[at as int].len() == heights[at as int] + 1);
            assert(before[at as int].len() == heights[at as int] + 1);
        }
        if layer == 0 {
            assert(joined_down(
                dist,
                m as int,
                ef as int,
                graph@.levels,
                i as int,
                at,
                -1,
            ) == graph@.levels);
            break;
        }
        layer = layer - 1;
    }
}

/// Walks downhill from a layer to one above another.
fn walk_down<G: Fn(usize, usize) -> u32>(
    graph: &Hnsw,
    g: &G,
    i: usize,
    ep: u32,
    from: usize,
    to: usize,
) -> (r: u32)
    requires
        super::distance::answers_pairs(*g, graph@.levels.len() as int),
        super::hnsw::in_range(graph@.levels, graph@.levels.len() as int),
        i < graph@.levels.len(),
        ep < graph@.levels.len(),
    ensures
        r == walked_down(
            graph@.levels,
            super::distance::pairs(*g, graph@.levels.len() as int)[i as int],
            ep,
            from as int,
            to as int,
        ),
{
    let ghost levels = graph@.levels;
    let ghost dist = super::distance::pairs(*g, levels.len() as int)[i as int];
    let mut at: u32 = ep;
    let mut layer: usize = from;
    while layer > to
        invariant
            levels == graph@.levels,
            dist == super::distance::pairs(*g, levels.len() as int)[i as int],
            super::distance::answers_pairs(*g, levels.len() as int),
            super::hnsw::in_range(levels, levels.len() as int),
            i < levels.len(),
            at < levels.len(),
            walked_down(levels, dist, ep, from as int, to as int) == walked_down(
                levels,
                dist,
                at,
                layer as int,
                to as int,
            ),
        decreases layer,
    {
        at = descend_to_row(graph, g, i, at, layer);
        layer = layer - 1;
    }
    at
}

/// Empty lists for rows of some heights.
fn make_stacks(heights: &Vec<usize>) -> (r: Vec<Vec<Vec<u32>>>)
    requires
        forall|i: int| 0 <= i < heights@.len() ==> #[trigger] heights@[i] < usize::MAX,
    ensures
        super::hnsw::levels_view(r@) == stacks(heights@),
{
    let mut levels: Vec<Vec<Vec<u32>>> = Vec::new();
    let mut i: usize = 0;
    while i < heights.len()
        invariant
            i <= heights@.len(),
            forall|i: int| 0 <= i < heights@.len() ==> #[trigger] heights@[i] < usize::MAX,
            levels@.len() == i,
            forall|a: int|
                0 <= a < i ==> super::hnsw::lists_view((#[trigger] levels@[a])@)
                    == stacks(heights@)[a],
        decreases heights@.len() - i,
    {
        let n: usize = heights[i] + 1;
        let mut row: Vec<Vec<u32>> = Vec::new();
        let mut l: usize = 0;
        while l < n
            invariant
                l <= n,
                row@.len() == l,
                forall|c: int| 0 <= c < l ==> (#[trigger] row@[c])@ == Seq::<u32>::empty(),
            decreases n - l,
        {
            row.push(Vec::new());
            l = l + 1;
        }
        assert(super::hnsw::lists_view(row@) =~= stacks(heights@)[i as int]);
        levels.push(row);
        i = i + 1;
    }
    assert(super::hnsw::levels_view(levels@) =~= stacks(heights@));
    levels
}

/// The number of neighbours that a build keeps above layer 0.
pub open spec fn build_m(params: HnswParams) -> int {
    if params.m < 2 {
        2
    } else {
        params.m as int
    }
}

/// The number of candidates that a build keeps.
pub open spec fn build_ef(params: HnswParams) -> int {
    if params.ef_construction < build_m(params) {
        build_m(params)
    } else {
        params.ef_construction as int
    }
}

/// The graph of some rows, of given heights and distances.
pub open spec fn built(
    dist: Seq<Seq<u32>>,
    params: HnswParams,
    heights: Seq<usize>,
) -> super::hnsw::HnswView {
    let g = grown(dist, build_m(params), build_ef(params), heights, heights.len() as int);
    super::hnsw::HnswView {
        m: build_m(params) as u32,
        m0: (2 * build_m(params)) as u32,
        ef_construction: build_ef(params) as u32,
        entry: if heights.len() == 0 {
            0
        } else {
            g.entry
        },
        levels: if heights.len() == 0 {
            Seq::empty()
        } else {
            g.levels
        },
    }
}

impl Hnsw {
    /// Builds the graph of some rows. The heights of the rows are given, and a
    /// function answers the distance between two of them.
    pub fn build<G: Fn(usize, usize) -> u32>(
        params: HnswParams,
        heights: &Vec<usize>,
        dist: &G,
    ) -> (r: Hnsw)
        requires
            heights@.len() <= u32::MAX,
            forall|i: int| 0 <= i < heights@.len() ==> #[trigger] heights@[i] < usize::MAX,
            params.m <= u32::MAX / 2,
            params.ef_construction <= u32::MAX,
            super::distance::answers_pairs(*dist, heights@.len() as int),
        ensures
            r@ == built(super::distance::pairs(*dist, heights@.len() as int), params, heights@),
            super::hnsw::graph_error(r@, heights@.len() as int) is None,
    {
        let count = heights.len();
        let m: usize = if params.m < 2 {
            2
        } else {
            params.m
        };
        let ef: usize = if params.ef_construction < m {
            m
        } else {
            params.ef_construction
        };
        let mut graph = Hnsw {
            m: m as u32,
            m0: (2 * m) as u32,
            ef_construction: ef as u32,
            entry: 0,
            levels: make_stacks(heights),
        };
        if count == 0 {
            proof {
                assert(graph@.levels =~= Seq::empty());
                super::hnsw::no_error_in_range(graph@.levels, 0);
            }
            return graph;
        }
        let ghost d = super::distance::pairs(*dist, count as int);
        let ghost head = graph@;
        let mut top: usize = heights[0];
        let mut i: usize = 1;
        while i < count
            invariant
                1 <= i <= count,
                count == heights@.len(),
                count <= u32::MAX,
                2 <= m <= u32::MAX / 2,
                1 <= ef <= u32::MAX,
                d == super::distance::pairs(*dist, count as int),
                super::distance::answers_pairs(*dist, count as int),
                head.m == m,
                head.m0 == 2 * m,
                head.ef_construction == ef,
                graph@ == (super::hnsw::HnswView {
                    entry: grown(d, m as int, ef as int, heights@, i as int).entry,
                    levels: grown(d, m as int, ef as int, heights@, i as int).levels,
                    ..head
                }),
                top == grown(d, m as int, ef as int, heights@, i as int).top,
            decreases count - i,
        {
            let ghost so_far = grown(d, m as int, ef as int, heights@, i as int);
            let h = heights[i];
            proof {
                grown_ok(d, m as int, ef as int, heights@, i as int);
                with_row_ok(d, m as int, ef as int, heights@, so_far, i as int);
                let levels = so_far.levels;
                assert forall|a: int, l: int, k: int|
                    0 <= a < levels.len() && 0 <= l < levels[a].len() && 0 <= k
                        < levels[a][l].len() implies #[trigger] levels[a][l][k]
                    < levels.len() by {
                    assert(link_ok(levels, i as int, so_far.top, a, l, levels[a][l][k]));
                }
                assert(levels[i as int].len() == heights@[i as int] + 1);
            }
            let ep = walk_down(&graph, dist, i, graph.entry, top, h);
            let low: usize = if h < top {
                h
            } else {
                top
            };
            join_down(&mut graph, dist, m, ef, i, ep, low, Ghost(heights@));
            if h > top {
                top = h;
                graph.entry = i as u32;
            }
            i = i + 1;
        }
        proof {
            grown_ok(d, m as int, ef as int, heights@, count as int);
            growth_without_error(
                grown(d, m as int, ef as int, heights@, count as int),
                m as int,
                heights@,
            );
        }
        graph
    }
}

/// What a built graph is like: it is valid, every row stands on the layers up to
/// its height, the entry is the first of the highest rows, no row is linked with
/// itself, a neighbour on a layer reaches that layer, no list repeats a row or is
/// longer than allowed, and of two or more rows each has a link at layer 0.
pub proof fn built_well(dist: Seq<Seq<u32>>, params: HnswParams, heights: Seq<usize>)
    requires
        heights.len() <= u32::MAX,
        params.m <= u32::MAX / 2,
        params.ef_construction <= u32::MAX,
    ensures
        ({
            let h = built(dist, params, heights);
            &&& super::hnsw::graph_error(h, heights.len() as int) is None
            &&& h.levels.len() == heights.len()
            &&& forall|i: int|
                0 <= i < heights.len() ==> (#[trigger] h.levels[i]).len() == heights[i] + 1
            &&& heights.len() > 0 ==> h.entry < heights.len()
            &&& forall|i: int|
                0 <= i < heights.len() ==> #[trigger] heights[i] <= heights[h.entry as int]
            &&& forall|i: int|
                0 <= i < h.entry ==> #[trigger] heights[i] < heights[h.entry as int]
            &&& forall|i: int, l: int, k: int|
                0 <= i < h.levels.len() && 0 <= l < h.levels[i].len() && 0 <= k
                    < h.levels[i][l].len() ==> #[trigger] h.levels[i][l][k] != i
                    && h.levels[h.levels[i][l][k] as int].len() > l
            &&& super::hnsw_once::unrepeated(h.levels)
            &&& forall|i: int, l: int|
                0 <= i < h.levels.len() && 0 <= l < h.levels[i].len() ==> (
                #[trigger] h.levels[i][l]).len() <= if l == 0 {
                    h.m0
                } else {
                    h.m
                }
            &&& heights.len() >= 2 ==> forall|i: int|
                0 <= i < h.levels.len() ==> (#[trigger] h.levels[i][0]).len() > 0
        }),
{
    let h = built(dist, params, heights);
    if heights.len() > 0 {
        let n = heights.len() as int;
        let m = build_m(params);
        grown_ok(dist, m, build_ef(params), heights, n);
        let g = grown(dist, m, build_ef(params), heights, n);
        growth_without_error(g, m, heights);
        assert forall|i: int, l: int, k: int|
            0 <= i < h.levels.len() && 0 <= l < h.levels[i].len() && 0 <= k
                < h.levels[i][l].len() implies #[trigger] h.levels[i][l][k] != i
            && h.levels[h.levels[i][l][k] as int].len() > l by {
            assert(link_ok(g.levels, n, g.top, i, l, g.levels[i][l][k]));
        }
        super::hnsw_once::grown_once(dist, m, build_ef(params), heights, n);
        assert forall|i: int, l: int|
            0 <= i < h.levels.len() && 0 <= l < h.levels[i].len() implies (
        #[trigger] h.levels[i][l]).len() <= if l == 0 {
            h.m0
        } else {
            h.m
        } by {
            assert(g.levels[i][l].len() <= cap_at(m, l));
        }
    } else {
        super::hnsw::no_error_in_range(h.levels, 0);
    }
}

} // verus!
