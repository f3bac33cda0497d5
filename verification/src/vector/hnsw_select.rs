//! Which neighbours a row keeps: near ones that do not all lie in one place.

use vstd::prelude::*;

use super::distance::ask_pair;
use super::metric::is_less;
use super::ranking::rank_all;

verus! {

/// Whether a candidate is nearer to its target than to every row kept.
pub open spec fn diverse(dist: Seq<Seq<u32>>, kept: Seq<u32>, c: (u32, u32)) -> bool {
    forall|j: int|
        0 <= j < kept.len() ==> super::metric::less(
            c.1,
            dist[c.0 as int][#[trigger] kept[j] as int],
        )
}

/// The rows kept and the rows rejected, after one more candidate.
pub open spec fn sift(
    dist: Seq<Seq<u32>>,
    target: int,
    cap: int,
    so_far: (Seq<u32>, Seq<u32>),
    c: (u32, u32),
) -> (Seq<u32>, Seq<u32>) {
    if c.0 == target || so_far.0.len() >= cap {
        so_far
    } else if diverse(dist, so_far.0, c) {
        (so_far.0.push(c.0), so_far.1)
    } else {
        (so_far.0, so_far.1.push(c.0))
    }
}

/// The rows kept and the rows rejected of some candidates.
pub open spec fn sifted(
    dist: Seq<Seq<u32>>,
    target: int,
    cap: int,
    cands: Seq<(u32, u32)>,
) -> (Seq<u32>, Seq<u32>)
    decreases cands.len(),
{
    if cands.len() == 0 {
        (Seq::empty(), Seq::empty())
    } else {
        sift(dist, target, cap, sifted(dist, target, cap, cands.drop_last()), cands.last())
    }
}

/// The rows kept, filled up with rejected ones.
pub open spec fn topped(kept: Seq<u32>, rejected: Seq<u32>, cap: int) -> Seq<u32> {
    if kept.len() >= cap {
        kept
    } else if kept.len() + rejected.len() <= cap {
        kept + rejected
    } else {
        kept + rejected.take(cap - kept.len())
    }
}

/// The neighbours that a row gets of some candidates.
pub open spec fn chosen(
    dist: Seq<Seq<u32>>,
    target: int,
    cap: int,
    cands: Seq<(u32, u32)>,
) -> Seq<u32> {
    let (kept, rejected) = sifted(dist, target, cap, cands);
    topped(kept, rejected, cap)
}

/// Some rows are candidates other than the target.
pub open spec fn among(s: Seq<u32>, target: int, cands: Seq<(u32, u32)>) -> bool {
    forall|k: int|
        0 <= k < s.len() ==> (#[trigger] s[k]) != target && exists|j: int|
            0 <= j < cands.len() && (#[trigger] cands[j]).0 == s[k]
}

proof fn among_more(s: Seq<u32>, target: int, cands: Seq<(u32, u32)>)
    requires
        cands.len() > 0,
        among(s, target, cands.drop_last()),
    ensures
        among(s, target, cands),
{
    let u = cands.drop_last();
    assert forall|k: int| 0 <= k < s.len() implies (#[trigger] s[k]) != target && exists|j: int|
        0 <= j < cands.len() && (#[trigger] cands[j]).0 == s[k] by {
        let j = choose|j: int| 0 <= j < u.len() && (#[trigger] u[j]).0 == s[k];
        assert(cands[j].0 == s[k]);
    }
}

proof fn among_push(s: Seq<u32>, target: int, cands: Seq<(u32, u32)>, x: u32)
    requires
        among(s, target, cands),
        cands.len() > 0,
        x == cands.last().0,
        x != target,
    ensures
        among(s.push(x), target, cands),
{
    let t = s.push(x);
    assert forall|k: int| 0 <= k < t.len() implies (#[trigger] t[k]) != target && exists|j: int|
        0 <= j < cands.len() && (#[trigger] cands[j]).0 == t[k] by {
        if k < s.len() {
            assert(s[k] == t[k]);
        } else {
            assert(cands[cands.len() - 1].0 == x);
        }
    }
}

pub(crate) proof fn sifted_ok(dist: Seq<Seq<u32>>, target: int, cap: int, cands: Seq<(u32, u32)>)
    requires
        cap >= 1,
    ensures
        sifted(dist, target, cap, cands).0.len() <= cap,
        among(sifted(dist, target, cap, cands).0, target, cands),
        among(sifted(dist, target, cap, cands).1, target, cands),
        (exists|j: int| 0 <= j < cands.len() && (#[trigger] cands[j]).0 != target) ==> sifted(
            dist,
            target,
            cap,
            cands,
        ).0.len() >= 1,
    decreases cands.len(),
{
    if cands.len() > 0 {
        let u = cands.drop_last();
        let c = cands.last();
        sifted_ok(dist, target, cap, u);
        let (kept, rejected) = sifted(dist, target, cap, u);
        among_more(kept, target, cands);
        among_more(rejected, target, cands);
        if c.0 != target && kept.len() < cap {
            among_push(kept, target, cands, c.0);
            among_push(rejected, target, cands, c.0);
        }
        if exists|j: int| 0 <= j < cands.len() && (#[trigger] cands[j]).0 != target {
            let j = choose|j: int| 0 <= j < cands.len() && (#[trigger] cands[j]).0 != target;
            if j < u.len() {
                assert(u[j].0 != target);
            } else if kept.len() == 0 {
                assert(diverse(dist, kept, c));
            }
        }
    }
}

/// The neighbours chosen are no more than allowed, are candidates other than
/// the target, and are some where there are any.
pub proof fn chosen_ok(dist: Seq<Seq<u32>>, target: int, cap: int, cands: Seq<(u32, u32)>)
    requires
        cap >= 1,
    ensures
        chosen(dist, target, cap, cands).len() <= cap,
        among(chosen(dist, target, cap, cands), target, cands),
        (exists|j: int| 0 <= j < cands.len() && (#[trigger] cands[j]).0 != target) ==> chosen(
            dist,
            target,
            cap,
            cands,
        ).len() >= 1,
{
    sifted_ok(dist, target, cap, cands);
    let (kept, rejected) = sifted(dist, target, cap, cands);
    let all = chosen(dist, target, cap, cands);
    assert forall|k: int| 0 <= k < all.len() implies (#[trigger] all[k]) != target && exists|
        j: int,
    |
        0 <= j < cands.len() && (#[trigger] cands[j]).0 == all[k] by {
        if k < kept.len() {
            assert(all[k] == kept[k]);
        } else {
            assert(all[k] == rejected[k - kept.len()]);
        }
    }
}

/// Whether a candidate is nearer to its target than to every row kept.
fn is_diverse<G: Fn(usize, usize) -> u32>(
    g: &G,
    kept: &Vec<u32>,
    c: (u32, u32),
    Ghost(count): Ghost<int>,
) -> (r: bool)
    requires
        super::distance::answers_pairs(*g, count),
        c.0 < count,
        forall|j: int| 0 <= j < kept@.len() ==> #[trigger] kept@[j] < count,
    ensures
        r == diverse(super::distance::pairs(*g, count), kept@, c),
{
    let mut j: usize = 0;
    while j < kept.len()
        invariant
            j <= kept@.len(),
            super::distance::answers_pairs(*g, count),
            c.0 < count,
            forall|j: int| 0 <= j < kept@.len() ==> #[trigger] kept@[j] < count,
            forall|k: int|
                0 <= k < j ==> super::metric::less(
                    c.1,
                    super::distance::pairs(*g, count)[c.0 as int][#[trigger] kept@[k] as int],
                ),
        decreases kept@.len() - j,
    {
        let s = kept[j];
        let d = ask_pair(g, c.0 as usize, s as usize, Ghost(count));
        if !is_less(c.1, d) {
            assert(!super::metric::less(
                c.1,
                super::distance::pairs(*g, count)[c.0 as int][kept@[j as int] as int],
            ));
            return false;
        }
        j = j + 1;
    }
    true
}

/// Chooses the neighbours of a row among some candidates.
pub(crate) fn select_neighbours<G: Fn(usize, usize) -> u32>(
    g: &G,
    target: usize,
    cands: &Vec<(u32, u32)>,
    cap: usize,
    Ghost(count): Ghost<int>,
) -> (r: Vec<u32>)
    requires
        super::distance::answers_pairs(*g, count),
        forall|j: int| 0 <= j < cands@.len() ==> (#[trigger] cands@[j]).0 < count,
    ensures
        r@ == chosen(super::distance::pairs(*g, count), target as int, cap as int, cands@),
{
    let ghost dist = super::distance::pairs(*g, count);
    let mut kept: Vec<u32> = Vec::new();
    let mut rejected: Vec<u32> = Vec::new();
    let mut i: usize = 0;
    assert(cands@.take(0) =~= Seq::empty());
    while i < cands.len()
        invariant
            i <= cands@.len(),
            dist == super::distance::pairs(*g, count),
            super::distance::answers_pairs(*g, count),
            forall|j: int| 0 <= j < cands@.len() ==> (#[trigger] cands@[j]).0 < count,
            (kept@, rejected@) == sifted(
                dist,
                target as int,
                cap as int,
                cands@.take(i as int),
            ),
            forall|j: int| 0 <= j < kept@.len() ==> #[trigger] kept@[j] < count,
        decreases cands@.len() - i,
    {
        assert(cands@.take(i + 1).drop_last() =~= cands@.take(i as int));
        let c = cands[i];
        assert(cands@[i as int].0 < count);
        if c.0 as usize != target && kept.len() < cap {
            if is_diverse(g, &kept, c, Ghost(count)) {
                kept.push(c.0);
            } else {
                rejected.push(c.0);
            }
        }
        i = i + 1;
    }
    assert(cands@.take(i as int) =~= cands@);
    let ghost first = kept@;
    let mut k: usize = 0;
    assert(first + rejected@.take(0) =~= first);
    while k < rejected.len() && kept.len() < cap
        invariant
            k <= rejected@.len(),
            kept@ == first + rejected@.take(k as int),
            k > 0 ==> kept@.len() <= cap,
        decreases rejected@.len() - k,
    {
        kept.push(rejected[k]);
        k = k + 1;
        assert(kept@ =~= first + rejected@.take(k as int));
    }
    assert(kept@ =~= topped(first, rejected@, cap as int)) by {
        if k == rejected@.len() {
            assert(rejected@.take(k as int) =~= rejected@);
        }
    }
    kept
}

/// A list without the candidates that repeat the row before them.
pub open spec fn deduped(s: Seq<(u32, u32)>) -> Seq<(u32, u32)>
    decreases s.len(),
{
    if s.len() == 0 {
        Seq::empty()
    } else {
        let rest = deduped(s.drop_last());
        if rest.len() > 0 && rest.last().0 == s.last().0 {
            rest
        } else {
            rest.push(s.last())
        }
    }
}

/// What is left of a list are some of its candidates, and some where there are
/// any.
proof fn deduped_from(s: Seq<(u32, u32)>)
    ensures
        forall|k: int| 0 <= k < deduped(s).len() ==> s.contains(#[trigger] deduped(s)[k]),
        s.len() > 0 ==> deduped(s).len() > 0,
    decreases s.len(),
{
    if s.len() > 0 {
        let u = s.drop_last();
        deduped_from(u);
        assert forall|k: int| 0 <= k < deduped(s).len() implies s.contains(
            #[trigger] deduped(s)[k],
        ) by {
            if k < deduped(u).len() {
                assert(deduped(s)[k] == deduped(u)[k]);
                let j = choose|j: int| 0 <= j < u.len() && u[j] == deduped(u)[k];
                assert(s[j] == deduped(s)[k]);
            } else {
                assert(s[s.len() - 1] == deduped(s)[k]);
            }
        }
    }
}

/// Rows with their distances.
pub open spec fn with_distances(list: Seq<u32>, dist: Seq<u32>) -> Seq<(u32, u32)> {
    Seq::new(list.len(), |k: int| (list[k], dist[list[k] as int]))
}

/// The neighbours that a row keeps of those that it has.
pub open spec fn relisted(
    dist: Seq<Seq<u32>>,
    node: int,
    cap: int,
    list: Seq<u32>,
) -> Seq<u32> {
    chosen(
        dist,
        node,
        cap,
        deduped(super::ranking::ranking(with_distances(list, dist[node]))),
    )
}

/// The neighbours kept are no more than allowed, are of those before, and are
/// some where there were any.
pub proof fn relisted_ok(dist: Seq<Seq<u32>>, node: int, cap: int, list: Seq<u32>)
    requires
        cap >= 1,
        forall|k: int| 0 <= k < list.len() ==> #[trigger] list[k] != node,
    ensures
        relisted(dist, node, cap, list).len() <= cap,
        forall|k: int|
            0 <= k < relisted(dist, node, cap, list).len() ==> list.contains(
                #[trigger] relisted(dist, node, cap, list)[k],
            ),
        list.len() > 0 ==> relisted(dist, node, cap, list).len() > 0,
{
    broadcast use vstd::seq_lib::group_to_multiset_ensures;

    let pairs = with_distances(list, dist[node]);
    let sorted = super::ranking::ranking(pairs);
    let cands = deduped(sorted);
    let out = relisted(dist, node, cap, list);
    super::ranking::ranking_ordered(pairs);
    deduped_from(sorted);
    chosen_ok(dist, node, cap, cands);
    assert forall|j: int| 0 <= j < cands.len() implies list.contains(
        (#[trigger] cands[j]).0,
    ) by {
        assert(sorted.contains(cands[j]));
        assert(sorted.to_multiset().contains(cands[j]));
        assert(pairs.contains(cands[j]));
        let k = choose|k: int| 0 <= k < pairs.len() && pairs[k] == cands[j];
        assert(list[k] == cands[j].0);
    }
    assert forall|k: int| 0 <= k < out.len() implies list.contains(#[trigger] out[k]) by {
        let j = choose|j: int| 0 <= j < cands.len() && (#[trigger] cands[j]).0 == out[k];
        assert(list.contains(cands[j].0));
    }
    if list.len() > 0 {
        assert(cands.len() > 0);
        assert(list.contains(cands[0].0));
        assert(cands[0].0 != node);
    }
}

/// Chooses the neighbours that a row keeps of those that it has.
pub(crate) fn relist<G: Fn(usize, usize) -> u32>(
    g: &G,
    node: usize,
    list: &Vec<u32>,
    cap: usize,
    Ghost(count): Ghost<int>,
) -> (r: Vec<u32>)
    requires
        super::distance::answers_pairs(*g, count),
        node < count,
        forall|k: int| 0 <= k < list@.len() ==> #[trigger] list@[k] < count,
    ensures
        r@ == relisted(super::distance::pairs(*g, count), node as int, cap as int, list@),
{
    broadcast use vstd::seq_lib::group_to_multiset_ensures;

    let ghost dist = super::distance::pairs(*g, count);
    let ghost all = with_distances(list@, dist[node as int]);
    let mut pairs: Vec<(u32, u32)> = Vec::new();
    let mut i: usize = 0;
    while i < list.len()
        invariant
            i <= list@.len(),
            dist == super::distance::pairs(*g, count),
            all == with_distances(list@, dist[node as int]),
            super::distance::answers_pairs(*g, count),
            node < count,
            forall|k: int| 0 <= k < list@.len() ==> #[trigger] list@[k] < count,
            pairs@ == all.take(i as int),
        decreases list@.len() - i,
    {
        let n = list[i];
        let d = ask_pair(g, node, n as usize, Ghost(count));
        pairs.push((n, d));
        i = i + 1;
        assert(pairs@ =~= all.take(i as int));
    }
    assert(all.take(i as int) =~= all);
    let sorted = rank_all(pairs);
    let mut cands: Vec<(u32, u32)> = Vec::new();
    let mut i: usize = 0;
    assert(sorted@.take(0) =~= Seq::empty());
    while i < sorted.len()
        invariant
            i <= sorted@.len(),
            cands@ == deduped(sorted@.take(i as int)),
        decreases sorted@.len() - i,
    {
        assert(sorted@.take(i + 1).drop_last() =~= sorted@.take(i as int));
        let c = sorted[i];
        if cands.len() == 0 || cands[cands.len() - 1].0 != c.0 {
            cands.push(c);
        }
        i = i + 1;
    }
    proof {
        assert(sorted@.take(i as int) =~= sorted@);
        super::ranking::ranking_ordered(all);
        deduped_from(sorted@);
        assert forall|j: int| 0 <= j < cands@.len() implies (#[trigger] cands@[j]).0 < count by {
            assert(sorted@.contains(cands@[j]));
            assert(sorted@.to_multiset().contains(cands@[j]));
            assert(all.contains(cands@[j]));
            let k = choose|k: int| 0 <= k < all.len() && all[k] == cands@[j];
            assert(list@[k] == cands@[j].0);
        }
    }
    select_neighbours(g, node, &cands, cap, Ghost(count))
}

} // verus!
