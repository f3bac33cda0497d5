//! Lists of neighbours in order: nearest first, equally near ones by id.

use vstd::prelude::*;

use super::metric::ranks_before;

verus! {

/// Whether one neighbour, an id and a distance, comes before another.
pub open spec fn nearer(a: (u32, u32), b: (u32, u32)) -> bool {
    super::metric::rank(a.1) < super::metric::rank(b.1) || (a.1 == b.1 && a.0 < b.0)
}

/// Whether one neighbour comes before another.
pub fn is_nearer(a: (u32, u32), b: (u32, u32)) -> (r: bool)
    ensures
        r == nearer(a, b),
{
    ranks_before(a.1, b.1) || (a.1 == b.1 && a.0 < b.0)
}

/// No neighbour comes before the one to its left.
pub open spec fn ordered(s: Seq<(u32, u32)>) -> bool {
    forall|i: int, j: int| 0 <= i < j < s.len() ==> !nearer(#[trigger] s[j], #[trigger] s[i])
}

/// A list with one more neighbour in its place.
pub open spec fn placed(s: Seq<(u32, u32)>, x: (u32, u32)) -> Seq<(u32, u32)>
    decreases s.len(),
{
    if s.len() == 0 {
        seq![x]
    } else if nearer(x, s.last()) {
        placed(s.drop_last(), x).push(s.last())
    } else {
        s.push(x)
    }
}

/// The neighbours in order.
pub open spec fn ranking(s: Seq<(u32, u32)>) -> Seq<(u32, u32)>
    decreases s.len(),
{
    if s.len() == 0 {
        Seq::empty()
    } else {
        placed(ranking(s.drop_last()), s.last())
    }
}

/// Where a neighbour is placed.
proof fn placed_at(s: Seq<(u32, u32)>, x: (u32, u32), p: int)
    requires
        0 <= p <= s.len(),
        forall|i: int| 0 <= i < p ==> !nearer(x, #[trigger] s[i]),
        forall|i: int| p <= i < s.len() ==> nearer(x, #[trigger] s[i]),
    ensures
        placed(s, x) == s.insert(p, x),
    decreases s.len(),
{
    if p < s.len() {
        let u = s.drop_last();
        placed_at(u, x, p);
        assert(nearer(x, s[s.len() - 1]));
        assert(placed(s, x) =~= s.insert(p, x));
    } else {
        if s.len() > 0 {
            assert(!nearer(x, s[s.len() - 1]));
        }
        assert(placed(s, x) =~= s.insert(p, x));
    }
}

/// In an ordered list each neighbour has one place.
proof fn place_of(s: Seq<(u32, u32)>, x: (u32, u32)) -> (p: int)
    requires
        ordered(s),
    ensures
        0 <= p <= s.len(),
        forall|i: int| 0 <= i < p ==> !nearer(x, #[trigger] s[i]),
        forall|i: int| p <= i < s.len() ==> nearer(x, #[trigger] s[i]),
    decreases s.len(),
{
    if s.len() == 0 {
        0
    } else if nearer(x, s.last()) {
        let u = s.drop_last();
        assert forall|i: int, j: int| 0 <= i < j < u.len() implies !nearer(
            #[trigger] u[j],
            #[trigger] u[i],
        ) by {
            assert(!nearer(s[j], s[i]));
        }
        let p = place_of(u, x);
        assert forall|i: int| 0 <= i < p implies !nearer(x, #[trigger] s[i]) by {
            assert(!nearer(x, u[i]));
        }
        assert forall|i: int| p <= i < s.len() implies nearer(x, #[trigger] s[i]) by {
            if i < u.len() {
                assert(nearer(x, u[i]));
            }
        }
        p
    } else {
        assert forall|i: int| 0 <= i < s.len() implies !nearer(x, #[trigger] s[i]) by {
            if i < s.len() - 1 {
                assert(!nearer(s[s.len() - 1], s[i]));
            }
        }
        s.len() as int
    }
}

/// Placing keeps the order, and adds one neighbour and no other.
pub proof fn placed_ordered(s: Seq<(u32, u32)>, x: (u32, u32))
    requires
        ordered(s),
    ensures
        ordered(placed(s, x)),
        placed(s, x).len() == s.len() + 1,
        placed(s, x).to_multiset() == s.to_multiset().insert(x),
        forall|i: int|
            0 <= i < placed(s, x).len() ==> #[trigger] placed(s, x)[i] == x || s.contains(
                placed(s, x)[i],
            ),
{
    let p = place_of(s, x);
    placed_at(s, x, p);
    let t = s.insert(p, x);
    assert forall|i: int, j: int| 0 <= i < j < t.len() implies !nearer(
        #[trigger] t[j],
        #[trigger] t[i],
    ) by {
        if j < p {
            assert(!nearer(s[j], s[i]));
        } else if j == p {
            assert(!nearer(x, s[i]));
        } else if i < p {
            assert(!nearer(s[j - 1], s[i]));
        } else if i == p {
            assert(nearer(x, s[j - 1]));
        } else {
            assert(!nearer(s[j - 1], s[i - 1]));
        }
    }
    assert forall|i: int| 0 <= i < t.len() implies #[trigger] t[i] == x || s.contains(t[i]) by {
        if i < p {
            assert(t[i] == s[i]);
        } else if i > p {
            assert(t[i] == s[i - 1]);
        }
    }
    vstd::seq_lib::to_multiset_insert(s, p, x);
}

/// Placing inserts a neighbour somewhere.
pub proof fn placed_insert(s: Seq<(u32, u32)>, x: (u32, u32))
    requires
        ordered(s),
    ensures
        exists|p: int| 0 <= p <= s.len() && placed(s, x) == #[trigger] s.insert(p, x),
{
    let p = place_of(s, x);
    placed_at(s, x, p);
}

/// A ranking is in order and neither loses nor adds a neighbour.
pub proof fn ranking_ordered(s: Seq<(u32, u32)>)
    ensures
        ordered(ranking(s)),
        ranking(s).len() == s.len(),
        ranking(s).to_multiset() == s.to_multiset(),
    decreases s.len(),
{
    broadcast use vstd::seq_lib::group_to_multiset_ensures;

    if s.len() > 0 {
        ranking_ordered(s.drop_last());
        placed_ordered(ranking(s.drop_last()), s.last());
        assert(s =~= s.drop_last().push(s.last()));
    }
}

/// Two orders of the same neighbours are the same.
pub proof fn ranking_is_unique(a: Seq<(u32, u32)>, b: Seq<(u32, u32)>)
    requires
        ordered(a),
        ordered(b),
        a.to_multiset() == b.to_multiset(),
    ensures
        a == b,
    decreases a.len(),
{
    broadcast use vstd::seq_lib::group_to_multiset_ensures;

    assert(a.len() == a.to_multiset().len());
    assert(b.len() == b.to_multiset().len());
    if a.len() > 0 {
        let x = a.last();
        let y = b.last();
        assert(a.to_multiset().contains(x));
        assert(b.to_multiset().contains(y));
        assert(b.contains(x));
        assert(a.contains(y));
        let i = choose|i: int| 0 <= i < b.len() && b[i] == x;
        let j = choose|j: int| 0 <= j < a.len() && a[j] == y;
        assert(!nearer(y, x)) by {
            if i < b.len() - 1 {
                assert(!nearer(b[b.len() - 1], b[i]));
            }
        }
        assert(!nearer(x, y)) by {
            if j < a.len() - 1 {
                assert(!nearer(a[a.len() - 1], a[j]));
            }
        }
        super::metric::distances_in_order(x.1, y.1);
        assert(x == y);
        assert(a =~= a.drop_last().push(x));
        assert(b =~= b.drop_last().push(y));
        assert(a.drop_last().to_multiset() =~= a.to_multiset().remove(x));
        assert(b.drop_last().to_multiset() =~= b.to_multiset().remove(y));
        assert forall|i: int, j: int| 0 <= i < j < a.drop_last().len() implies !nearer(
            #[trigger] a.drop_last()[j],
            #[trigger] a.drop_last()[i],
        ) by {
            assert(!nearer(a[j], a[i]));
        }
        assert forall|i: int, j: int| 0 <= i < j < b.drop_last().len() implies !nearer(
            #[trigger] b.drop_last()[j],
            #[trigger] b.drop_last()[i],
        ) by {
            assert(!nearer(b[j], b[i]));
        }
        ranking_is_unique(a.drop_last(), b.drop_last());
    } else {
        assert(a =~= b);
    }
}

/// Puts a neighbour in its place.
pub fn place(list: &mut Vec<(u32, u32)>, x: (u32, u32))
    requires
        ordered(old(list)@),
    ensures
        final(list)@ == placed(old(list)@, x),
        ordered(final(list)@),
        final(list)@.len() == old(list)@.len() + 1,
{
    let ghost s = list@;
    let ghost p = place_of(s, x);
    let mut lo: usize = 0;
    let mut hi: usize = list.len();
    while lo < hi
        invariant
            s == list@,
            lo <= p <= hi <= s.len(),
            forall|i: int| 0 <= i < p ==> !nearer(x, #[trigger] s[i]),
            forall|i: int| p <= i < s.len() ==> nearer(x, #[trigger] s[i]),
        decreases hi - lo,
    {
        let mid: usize = lo + (hi - lo) / 2;
        if is_nearer(x, list[mid]) {
            hi = mid;
        } else {
            lo = mid + 1;
        }
    }
    proof {
        placed_at(s, x, p);
        placed_ordered(s, x);
    }
    list.insert(lo, x);
}

/// The neighbours in order.
pub fn rank_all(pairs: Vec<(u32, u32)>) -> (r: Vec<(u32, u32)>)
    ensures
        r@ == ranking(pairs@),
        ordered(r@),
        r@.len() == pairs@.len(),
{
    let mut out: Vec<(u32, u32)> = Vec::new();
    let mut i: usize = 0;
    while i < pairs.len()
        invariant
            i <= pairs.len(),
            out@ == ranking(pairs@.take(i as int)),
            ordered(out@),
            out@.len() == i,
        decreases pairs.len() - i,
    {
        assert(pairs@.take(i + 1).drop_last() =~= pairs@.take(i as int));
        place(&mut out, pairs[i]);
        i = i + 1;
    }
    assert(pairs@.take(i as int) =~= pairs@);
    out
}

} // verus!
