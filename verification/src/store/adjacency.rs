//! The edges at each node, as one list of edges with a start for each node.

use vstd::prelude::*;

use crate::model::graph_access::EdgeView;

verus! {

/// Which edges at a node are meant.
#[derive(Debug, Clone, Copy, PartialEq, Eq, Structural)]
pub enum Side {
    Outgoing,
    Incoming,
    Undirected,
}

/// The nodes and edges of a side, in the order of edges: an undirected edge
/// stands at both its ends.
pub open spec fn edge_pairs(edges: Seq<EdgeView>, side: Side) -> Seq<(u32, u32)>
    decreases edges.len(),
{
    if edges.len() == 0 {
        Seq::empty()
    } else {
        let rest = edge_pairs(edges.drop_last(), side);
        let e = edges.last();
        let id = (edges.len() - 1) as u32;
        match side {
            Side::Outgoing => if e.directed {
                rest.push((e.src, id))
            } else {
                rest
            },
            Side::Incoming => if e.directed {
                rest.push((e.tgt, id))
            } else {
                rest
            },
            Side::Undirected => if e.directed {
                rest
            } else {
                rest.push((e.src, id)).push((e.tgt, id))
            },
        }
    }
}

/// The edges that stand at a node.
pub open spec fn at_node(pairs: Seq<(u32, u32)>, node: int) -> Seq<u32>
    decreases pairs.len(),
{
    if pairs.len() == 0 {
        Seq::empty()
    } else {
        let rest = at_node(pairs.drop_last(), node);
        if pairs.last().0 == node {
            rest.push(pairs.last().1)
        } else {
            rest
        }
    }
}

/// The edges of the first nodes, node by node.
pub open spec fn flat_upto(pairs: Seq<(u32, u32)>, nodes: nat) -> Seq<u32>
    decreases nodes,
{
    if nodes == 0 {
        Seq::empty()
    } else {
        flat_upto(pairs, (nodes - 1) as nat) + at_node(pairs, nodes - 1)
    }
}

/// The edges at each node. `offsets[n]..offsets[n + 1]` is where those of node
/// `n` lie in `flat`.
#[derive(Debug)]
pub struct AdjCsr {
    pub offsets: Vec<u32>,
    pub flat: Vec<u32>,
}

/// The part of a list that belongs to a node.
pub open spec fn node_slice(offsets: Seq<u32>, flat: Seq<u32>, node: int) -> Seq<u32> {
    if node + 1 >= offsets.len() {
        Seq::empty()
    } else {
        flat.subrange(offsets[node] as int, offsets[node + 1] as int)
    }
}

/// The parts lie within the list.
pub open spec fn offsets_ok(offsets: Seq<u32>, flat: Seq<u32>) -> bool {
    forall|n: int|
        0 <= n < offsets.len() - 1 ==> #[trigger] offsets[n] <= offsets[n + 1] <= flat.len()
}

impl AdjCsr {
    /// These are the edges of `pairs` at each of `nodes` nodes.
    pub open spec fn holds(&self, pairs: Seq<(u32, u32)>, nodes: nat) -> bool {
        &&& self.offsets@ == Seq::new(nodes + 1, |n: int| flat_upto(pairs, n as nat).len() as u32)
        &&& self.flat@ == flat_upto(pairs, nodes)
        &&& self.flat@.len() <= u32::MAX
    }

    /// No edges at any node.
    pub fn empty(node_count: usize) -> (r: Self)
        ensures
            r.holds(Seq::empty(), node_count as nat),
    {
        let mut offsets: Vec<u32> = Vec::new();
        offsets.push(0);
        let mut i: usize = 0;
        while i < node_count
            invariant
                i <= node_count,
                offsets@.len() == i + 1,
                forall|j: int| 0 <= j <= i ==> #[trigger] offsets@[j] == 0,
            decreases node_count - i,
        {
            offsets.push(0);
            i = i + 1;
        }
        let r = AdjCsr { offsets, flat: Vec::new() };
        proof {
            assert forall|n: int| 0 <= n < node_count + 1 implies #[trigger] r.offsets@[n]
                == flat_upto(Seq::empty(), n as nat).len() as u32 by {
                flat_of_none(n as nat);
            }
            flat_of_none(node_count as nat);
            assert(r.offsets@ =~= Seq::new(
                node_count as nat + 1,
                |n: int| flat_upto(Seq::empty(), n as nat).len() as u32,
            ));
            assert(r.flat@ =~= flat_upto(Seq::empty(), node_count as nat));
        }
        r
    }

    /// The edges at a node; none at a node beyond the last one.
    pub fn slice(&self, node_id: u32) -> (r: &[u32])
        requires
            offsets_ok(self.offsets@, self.flat@),
        ensures
            r@ == node_slice(self.offsets@, self.flat@, node_id as int),
    {
        let n = node_id as usize;
        if self.offsets.len() == 0 || n >= self.offsets.len() - 1 {
            let r = vstd::slice::slice_subrange(self.flat.as_slice(), 0, 0);
            assert(r@ =~= Seq::empty());
            return r;
        }
        assert(self.offsets@[n as int] <= self.offsets@[n + 1]);
        let start = self.offsets[n] as usize;
        let end = self.offsets[n + 1] as usize;
        vstd::slice::slice_subrange(self.flat.as_slice(), start, end)
    }

    /// What the list of a node is: the edges that stand at it, in order, and
    /// none for a number that is no node's.
    pub proof fn slices(&self, pairs: Seq<(u32, u32)>, nodes: nat)
        requires
            self.holds(pairs, nodes),
        ensures
            offsets_ok(self.offsets@, self.flat@),
            forall|n: int|
                0 <= n < nodes ==> #[trigger] node_slice(self.offsets@, self.flat@, n) == at_node(
                    pairs,
                    n,
                ),
            forall|n: int|
                n >= nodes ==> #[trigger] node_slice(self.offsets@, self.flat@, n) == Seq::<
                    u32,
                >::empty(),
    {
        assert forall|n: int| 0 <= n < nodes implies #[trigger] node_slice(
            self.offsets@,
            self.flat@,
            n,
        ) == at_node(pairs, n) && self.offsets@[n] <= self.offsets@[n + 1] <= self.flat@.len() by {
            let a = flat_upto(pairs, n as nat);
            let b = flat_upto(pairs, (n + 1) as nat);
            flat_prefix(pairs, (n + 1) as nat, nodes);
            assert(b == a + at_node(pairs, n));
            assert(self.flat@.subrange(0, b.len() as int) == b);
            assert(self.flat@.subrange(a.len() as int, b.len() as int) =~= b.subrange(
                a.len() as int,
                b.len() as int,
            ));
            assert(b.subrange(a.len() as int, b.len() as int) =~= at_node(pairs, n));
        }
        assert forall|n: int| 0 <= n < self.offsets@.len() - 1 implies #[trigger] self.offsets@[n]
            <= self.offsets@[n + 1] <= self.flat@.len() by {
            assert(node_slice(self.offsets@, self.flat@, n) == at_node(pairs, n));
        }
    }
}

proof fn flat_of_none(n: nat)
    ensures
        flat_upto(Seq::empty(), n) == Seq::<u32>::empty(),
    decreases n,
{
    if n > 0 {
        flat_of_none((n - 1) as nat);
        assert(flat_upto(Seq::empty(), n) =~= Seq::empty());
    }
}

/// The list of fewer nodes comes first.
pub proof fn flat_prefix(pairs: Seq<(u32, u32)>, a: nat, b: nat)
    requires
        a <= b,
    ensures
        flat_upto(pairs, a).len() <= flat_upto(pairs, b).len(),
        flat_upto(pairs, b).subrange(0, flat_upto(pairs, a).len() as int) == flat_upto(pairs, a),
    decreases b,
{
    if a == b {
        assert(flat_upto(pairs, b).subrange(0, flat_upto(pairs, a).len() as int) =~= flat_upto(
            pairs,
            a,
        ));
    } else {
        flat_prefix(pairs, a, (b - 1) as nat);
        let x = flat_upto(pairs, a);
        let y = flat_upto(pairs, (b - 1) as nat);
        let z = flat_upto(pairs, b);
        assert(z.subrange(0, x.len() as int) =~= y.subrange(0, x.len() as int));
    }
}

/// No more edges stand at nodes than there are pairs.
pub proof fn flat_len(pairs: Seq<(u32, u32)>, nodes: nat)
    ensures
        flat_upto(pairs, nodes).len() <= pairs.len(),
    decreases pairs.len(),
{
    if pairs.len() == 0 {
        assert(pairs =~= Seq::empty());
        flat_of_none(nodes);
    } else {
        flat_len(pairs.drop_last(), nodes);
        flat_step(pairs, nodes);
    }
}

/// Every pair stands at its node.
pub proof fn flat_full(pairs: Seq<(u32, u32)>, nodes: nat)
    requires
        forall|i: int| 0 <= i < pairs.len() ==> (#[trigger] pairs[i]).0 < nodes,
    ensures
        flat_upto(pairs, nodes).len() == pairs.len(),
    decreases pairs.len(),
{
    if pairs.len() == 0 {
        assert(pairs =~= Seq::empty());
        flat_of_none(nodes);
    } else {
        let rest = pairs.drop_last();
        assert forall|i: int| 0 <= i < rest.len() implies (#[trigger] rest[i]).0 < nodes by {
            assert(rest[i] == pairs[i]);
        }
        flat_full(rest, nodes);
        flat_step(pairs, nodes);
        assert(pairs[pairs.len() - 1].0 < nodes);
    }
}

proof fn flat_step(pairs: Seq<(u32, u32)>, nodes: nat)
    requires
        pairs.len() > 0,
    ensures
        flat_upto(pairs, nodes).len() == flat_upto(pairs.drop_last(), nodes).len() + (
        if pairs.last().0 < nodes {
            1int
        } else {
            0int
        }),
    decreases nodes,
{
    if nodes > 0 {
        flat_step(pairs, (nodes - 1) as nat);
    }
}

/// Collects the edges at each node.
pub fn build_csr(node_count: usize, pairs: &Vec<(u32, u32)>) -> (r: AdjCsr)
    requires
        pairs@.len() <= u32::MAX,
        forall|i: int| 0 <= i < pairs@.len() ==> (#[trigger] pairs@[i]).0 < node_count,
    ensures
        r.holds(pairs@, node_count as nat),
{
    let mut buckets: Vec<Vec<u32>> = Vec::new();
    let mut n: usize = 0;
    while n < node_count
        invariant
            n <= node_count,
            buckets@.len() == n,
            forall|j: int| 0 <= j < n ==> (#[trigger] buckets@[j])@ == at_node(pairs@.take(0), j),
        decreases node_count - n,
    {
        let none: Vec<u32> = Vec::new();
        assert(none@ =~= at_node(pairs@.take(0), n as int));
        buckets.push(none);
        n = n + 1;
    }
    let mut i: usize = 0;
    while i < pairs.len()
        invariant
            i <= pairs.len(),
            buckets@.len() == node_count,
            forall|k: int| 0 <= k < pairs@.len() ==> (#[trigger] pairs@[k]).0 < node_count,
            forall|j: int|
                0 <= j < node_count ==> (#[trigger] buckets@[j])@ == at_node(
                    pairs@.take(i as int),
                    j,
                ),
        decreases pairs.len() - i,
    {
        let (node, edge) = pairs[i];
        assert(pairs@[i as int].0 < node_count);
        assert(pairs@.take(i + 1).drop_last() =~= pairs@.take(i as int));
        assert(pairs@.take(i + 1).last() == pairs@[i as int]);
        let ghost before = buckets@;
        let bucket = &mut buckets[node as usize];
        bucket.push(edge);
        assert forall|j: int| 0 <= j < node_count implies (#[trigger] buckets@[j])@ == at_node(
            pairs@.take(i + 1),
            j,
        ) by {
            assert(before[j]@ == at_node(pairs@.take(i as int), j));
        }
        i = i + 1;
    }
    assert(pairs@.take(i as int) =~= pairs@);
    let mut offsets: Vec<u32> = Vec::new();
    let mut flat: Vec<u32> = Vec::new();
    offsets.push(0);
    let mut n: usize = 0;
    while n < node_count
        invariant
            n <= node_count,
            buckets@.len() == node_count,
            pairs@.len() <= u32::MAX,
            forall|j: int| 0 <= j < node_count ==> (#[trigger] buckets@[j])@ == at_node(pairs@, j),
            flat@ == flat_upto(pairs@, n as nat),
            offsets@.len() == n + 1,
            forall|j: int|
                0 <= j <= n ==> #[trigger] offsets@[j] == flat_upto(pairs@, j as nat).len() as u32,
        decreases node_count - n,
    {
        assert(buckets@[n as int]@ == at_node(pairs@, n as int));
        let ghost before = flat@;
        let mut k: usize = 0;
        assert(before + at_node(pairs@, n as int).take(0) =~= before);
        while k < buckets[n].len()
            invariant
                n < node_count,
                buckets@.len() == node_count,
                buckets@[n as int]@ == at_node(pairs@, n as int),
                k <= buckets@[n as int]@.len(),
                flat@ == before + at_node(pairs@, n as int).take(k as int),
            decreases buckets@[n as int]@.len() - k,
        {
            flat.push(buckets[n][k]);
            k = k + 1;
            assert(flat@ =~= before + at_node(pairs@, n as int).take(k as int));
        }
        assert(at_node(pairs@, n as int).take(k as int) =~= at_node(pairs@, n as int));
        proof {
            flat_len(pairs@, (n + 1) as nat);
        }
        offsets.push(flat.len() as u32);
        n = n + 1;
    }
    let r = AdjCsr { offsets, flat };
    proof {
        flat_len(pairs@, node_count as nat);
        assert(r.offsets@ =~= Seq::new(
            (node_count + 1) as nat,
            |n: int| flat_upto(pairs@, n as nat).len() as u32,
        ));
    }
    r
}

/// An edge stands at a node of its side: at its source, at its target, or at
/// either end.
pub open spec fn stands_at(e: EdgeView, side: Side, node: int) -> bool {
    match side {
        Side::Outgoing => e.directed && e.src == node,
        Side::Incoming => e.directed && e.tgt == node,
        Side::Undirected => !e.directed && (e.src == node || e.tgt == node),
    }
}

/// The edges at a node are exactly those that have it as an end of the side.
pub proof fn edges_at_node(edges: Seq<EdgeView>, side: Side, node: int, id: u32)
    requires
        edges.len() <= u32::MAX,
    ensures
        at_node(edge_pairs(edges, side), node).contains(id) <==> id < edges.len() && stands_at(
            edges[id as int],
            side,
            node,
        ),
    decreases edges.len(),
{
    if edges.len() > 0 {
        let rest = edges.drop_last();
        edges_at_node(rest, side, node, id);
        let e = edges.last();
        let last = (edges.len() - 1) as u32;
        let before = edge_pairs(rest, side);
        let pairs = edge_pairs(edges, side);
        let old_list = at_node(before, node);
        if side == Side::Undirected && !e.directed {
            let one = before.push((e.src, last));
            let two = one.push((e.tgt, last));
            assert(two.drop_last() =~= one);
            assert(one.drop_last() =~= before);
            pushed(old_list, last, id);
            pushed(at_node(one, node), last, id);
        } else if e.directed && side != Side::Undirected {
            assert(pairs.drop_last() =~= before);
            pushed(old_list, last, id);
        }
    }
}

proof fn pushed(s: Seq<u32>, x: u32, id: u32)
    ensures
        s.push(x).contains(id) <==> s.contains(id) || id == x,
{
    if s.contains(id) {
        let i = choose|i: int| 0 <= i < s.len() && s[i] == id;
        assert(s.push(x)[i] == id);
    }
    assert(s.push(x)[s.len() as int] == x);
    if s.push(x).contains(id) && id != x {
        let i = choose|i: int| 0 <= i < s.push(x).len() && s.push(x)[i] == id;
        assert(s[i] == id);
    }
}

/// The pairs of a side of the given edges.
pub(crate) fn collect_pairs(
    src: &Vec<u32>,
    tgt: &Vec<u32>,
    directed: &Vec<bool>,
    side: Side,
    edges: Ghost<Seq<EdgeView>>,
) -> (r: Vec<(u32, u32)>)
    requires
        src@.len() == edges@.len(),
        tgt@.len() == edges@.len(),
        directed@.len() == edges@.len(),
        edges@.len() <= u32::MAX,
        forall|i: int|
            0 <= i < edges@.len() ==> (#[trigger] edges@[i]).src == src@[i] && edges@[i].tgt
                == tgt@[i] && edges@[i].directed == directed@[i],
    ensures
        r@ == edge_pairs(edges@, side),
{
    let mut out: Vec<(u32, u32)> = Vec::new();
    let mut i: usize = 0;
    while i < src.len()
        invariant
            i <= src.len(),
            src@.len() == edges@.len(),
            tgt@.len() == edges@.len(),
            directed@.len() == edges@.len(),
            edges@.len() <= u32::MAX,
            forall|i: int|
                0 <= i < edges@.len() ==> (#[trigger] edges@[i]).src == src@[i] && edges@[i].tgt
                    == tgt@[i] && edges@[i].directed == directed@[i],
            out@ == edge_pairs(edges@.take(i as int), side),
        decreases src.len() - i,
    {
        assert(edges@.take(i + 1).drop_last() =~= edges@.take(i as int));
        assert(edges@.take(i + 1).last() == edges@[i as int]);
        let id = i as u32;
        match side {
            Side::Outgoing => {
                if directed[i] {
                    out.push((src[i], id));
                }
            },
            Side::Incoming => {
                if directed[i] {
                    out.push((tgt[i], id));
                }
            },
            Side::Undirected => {
                if !directed[i] {
                    out.push((src[i], id));
                    out.push((tgt[i], id));
                }
            },
        }
        i = i + 1;
    }
    assert(edges@.take(i as int) =~= edges@);
    out
}

/// The edges at a node with the node at the other end and the kind of each: 0
/// for an outgoing, 1 for an incoming, 2 for an undirected edge.
pub open spec fn node_triples(edges: Seq<EdgeView>, node: int) -> Seq<(u32, u32, u8)>
    decreases edges.len(),
{
    if edges.len() == 0 {
        Seq::empty()
    } else {
        let rest = node_triples(edges.drop_last(), node);
        let e = edges.last();
        let id = (edges.len() - 1) as u32;
        let (there, back): (u8, u8) = if e.directed {
            (0, 1)
        } else {
            (2, 2)
        };
        let first = if e.src == node {
            rest.push((id, e.tgt, there))
        } else {
            rest
        };
        if e.tgt == node {
            first.push((id, e.src, back))
        } else {
            first
        }
    }
}

/// The edges at each of the first nodes that has any.
pub open spec fn triple_index(edges: Seq<EdgeView>, nodes: nat) -> Seq<
    (u32, Seq<(u32, u32, u8)>),
>
    decreases nodes,
{
    if nodes == 0 {
        Seq::empty()
    } else {
        let rest = triple_index(edges, (nodes - 1) as nat);
        let list = node_triples(edges, nodes - 1);
        if list.len() > 0 {
            rest.push(((nodes - 1) as u32, list))
        } else {
            rest
        }
    }
}

/// Collects the edges at each node.
pub(crate) fn collect_triples(
    node_count: usize,
    src: &Vec<u32>,
    tgt: &Vec<u32>,
    directed: &Vec<bool>,
    edges: Ghost<Seq<EdgeView>>,
) -> (r: Vec<(u32, Vec<(u32, u32, u8)>)>)
    requires
        node_count <= u32::MAX,
        src@.len() == edges@.len(),
        tgt@.len() == edges@.len(),
        directed@.len() == edges@.len(),
        edges@.len() <= u32::MAX,
        forall|i: int|
            0 <= i < edges@.len() ==> (#[trigger] edges@[i]).src == src@[i] && edges@[i].tgt
                == tgt@[i] && edges@[i].directed == directed@[i] && src@[i] < node_count && tgt@[i]
                < node_count,
    ensures
        super::disk_index::triple_entries(r@) == triple_index(edges@, node_count as nat),
{
    let mut buckets: Vec<Vec<(u32, u32, u8)>> = Vec::new();
    let mut n: usize = 0;
    while n < node_count
        invariant
            n <= node_count,
            buckets@.len() == n,
            forall|j: int|
                0 <= j < n ==> (#[trigger] buckets@[j])@ == node_triples(edges@.take(0), j),
        decreases node_count - n,
    {
        let none: Vec<(u32, u32, u8)> = Vec::new();
        assert(none@ =~= node_triples(edges@.take(0), n as int));
        buckets.push(none);
        n = n + 1;
    }
    let mut i: usize = 0;
    while i < src.len()
        invariant
            i <= src.len(),
            buckets@.len() == node_count,
            src@.len() == edges@.len(),
            tgt@.len() == edges@.len(),
            directed@.len() == edges@.len(),
            edges@.len() <= u32::MAX,
            forall|i: int|
                0 <= i < edges@.len() ==> (#[trigger] edges@[i]).src == src@[i] && edges@[i].tgt
                    == tgt@[i] && edges@[i].directed == directed@[i] && src@[i] < node_count
                    && tgt@[i] < node_count,
            forall|j: int|
                0 <= j < node_count ==> (#[trigger] buckets@[j])@ == node_triples(
                    edges@.take(i as int),
                    j,
                ),
        decreases src.len() - i,
    {
        assert(edges@[i as int].src == src@[i as int]);
        assert(edges@.take(i + 1).drop_last() =~= edges@.take(i as int));
        assert(edges@.take(i + 1).last() == edges@[i as int]);
        let id = i as u32;
        let there: u8 = if directed[i] {
            0
        } else {
            2
        };
        let back: u8 = if directed[i] {
            1
        } else {
            2
        };
        let ghost before = buckets@;
        let b = &mut buckets[src[i] as usize];
        b.push((id, tgt[i], there));
        let ghost between = buckets@;
        let b = &mut buckets[tgt[i] as usize];
        b.push((id, src[i], back));
        assert forall|j: int| 0 <= j < node_count implies (#[trigger] buckets@[j])@ == node_triples(
            edges@.take(i + 1),
            j,
        ) by {
            assert(before[j]@ == node_triples(edges@.take(i as int), j));
            if j == src@[i as int] {
                assert(between[j]@ == before[j]@.push((id, tgt@[i as int], there)));
            } else {
                assert(between[j] == before[j]);
            }
            if j == tgt@[i as int] {
                assert(buckets@[j]@ == between[j]@.push((id, src@[i as int], back)));
            } else {
                assert(buckets@[j] == between[j]);
            }
        }
        i = i + 1;
    }
    assert(edges@.take(i as int) =~= edges@);
    let mut out: Vec<(u32, Vec<(u32, u32, u8)>)> = Vec::new();
    let mut n: usize = 0;
    assert(super::disk_index::triple_entries(out@) =~= Seq::empty());
    while n < node_count
        invariant
            n <= node_count <= u32::MAX,
            buckets@.len() == node_count,
            forall|j: int|
                0 <= j < node_count ==> (#[trigger] buckets@[j])@ == node_triples(edges@, j),
            super::disk_index::triple_entries(out@) == triple_index(edges@, n as nat),
        decreases node_count - n,
    {
        assert(buckets@[n as int]@ == node_triples(edges@, n as int));
        if buckets[n].len() > 0 {
            let ghost before = super::disk_index::triple_entries(out@);
            let list = copy_triples(&buckets[n]);
            out.push((n as u32, list));
            assert(super::disk_index::triple_entries(out@) =~= before.push((n as u32, list@)));
        }
        n = n + 1;
    }
    out
}

fn copy_triples(v: &Vec<(u32, u32, u8)>) -> (r: Vec<(u32, u32, u8)>)
    ensures
        r@ == v@,
{
    let mut out: Vec<(u32, u32, u8)> = Vec::new();
    let mut i: usize = 0;
    while i < v.len()
        invariant
            i <= v.len(),
            out@ == v@.take(i as int),
        decreases v.len() - i,
    {
        out.push(v[i]);
        i = i + 1;
        assert(out@ =~= v@.take(i as int));
    }
    assert(out@ =~= v@);
    out
}

/// Pairs depend on ends and directions alone.
pub proof fn pairs_same(a: Seq<EdgeView>, b: Seq<EdgeView>, side: Side)
    requires
        a.len() == b.len(),
        forall|i: int|
            0 <= i < a.len() ==> (#[trigger] a[i]).src == b[i].src && a[i].tgt == b[i].tgt
                && a[i].directed == b[i].directed,
    ensures
        edge_pairs(a, side) == edge_pairs(b, side),
    decreases a.len(),
{
    if a.len() > 0 {
        let x = a.drop_last();
        let y = b.drop_last();
        assert forall|i: int| 0 <= i < x.len() implies (#[trigger] x[i]).src == y[i].src && x[i].tgt
            == y[i].tgt && x[i].directed == y[i].directed by {
            assert(x[i] == a[i] && y[i] == b[i]);
        }
        pairs_same(x, y, side);
        assert(a[a.len() - 1].src == b[a.len() - 1].src);
    }
}

/// Pairs name nodes of the graph, and a directed side has one per edge at most.
pub proof fn pairs_range(edges: Seq<EdgeView>, side: Side, nodes: int)
    requires
        forall|i: int|
            0 <= i < edges.len() ==> (#[trigger] edges[i]).src < nodes && edges[i].tgt < nodes,
    ensures
        forall|i: int|
            0 <= i < edge_pairs(edges, side).len() ==> (#[trigger] edge_pairs(edges, side)[i]).0
                < nodes,
        side != Side::Undirected ==> edge_pairs(edges, side).len() <= edges.len(),
    decreases edges.len(),
{
    if edges.len() > 0 {
        let rest = edges.drop_last();
        assert forall|i: int| 0 <= i < rest.len() implies (#[trigger] rest[i]).src < nodes
            && rest[i].tgt < nodes by {
            assert(rest[i] == edges[i]);
        }
        pairs_range(rest, side, nodes);
        let before = edge_pairs(rest, side);
        let all = edge_pairs(edges, side);
        assert(edges[edges.len() - 1].src < nodes);
        assert forall|i: int| 0 <= i < all.len() implies (#[trigger] all[i]).0 < nodes by {
            if i < before.len() {
                assert(all[i] == before[i]);
            }
        }
    }
}

/// Every edge stands at two ends at most.
proof fn triples_last(edges: Seq<EdgeView>, nodes: nat)
    requires
        edges.len() > 0,
    ensures
        super::disk_index::total_len(
            super::disk_index::entry_lists(triple_index(edges, nodes)),
        ) <= super::disk_index::total_len(
            super::disk_index::entry_lists(triple_index(edges.drop_last(), nodes)),
        ) + (if edges.last().src < nodes {
            1int
        } else {
            0
        }) + (if edges.last().tgt < nodes {
            1int
        } else {
            0
        }),
    decreases nodes,
{
    if nodes > 0 {
        triples_last(edges, (nodes - 1) as nat);
        triples_step(edges, nodes);
        triples_step(edges.drop_last(), nodes);
    }
}

proof fn triples_step(edges: Seq<EdgeView>, nodes: nat)
    requires
        nodes > 0,
    ensures
        super::disk_index::total_len(super::disk_index::entry_lists(triple_index(edges, nodes)))
            == super::disk_index::total_len(
            super::disk_index::entry_lists(triple_index(edges, (nodes - 1) as nat)),
        ) + node_triples(edges, nodes - 1).len(),
{
    let all = super::disk_index::entry_lists(triple_index(edges, nodes));
    let rest = super::disk_index::entry_lists(triple_index(edges, (nodes - 1) as nat));
    if node_triples(edges, nodes - 1).len() > 0 {
        assert(all.drop_last() =~= rest);
    }
}

/// The triples of all nodes: as many as edges have ends, in filled lists.
pub proof fn triples_total(edges: Seq<EdgeView>, nodes: nat)
    ensures
        super::disk_index::total_len(super::disk_index::entry_lists(triple_index(edges, nodes)))
            <= 2 * edges.len(),
        forall|i: int|
            0 <= i < triple_index(edges, nodes).len() ==> (#[trigger] super::disk_index::entry_lists(
                triple_index(edges, nodes),
            )[i]).len() > 0,
    decreases edges.len(), nodes,
{
    if edges.len() > 0 {
        triples_total(edges.drop_last(), nodes);
        triples_last(edges, nodes);
    } else if nodes > 0 {
        triples_total(edges, (nodes - 1) as nat);
        triples_step(edges, nodes);
    }
    triples_filled(edges, nodes);
}

proof fn triples_filled(edges: Seq<EdgeView>, nodes: nat)
    ensures
        forall|i: int|
            0 <= i < triple_index(edges, nodes).len() ==> (#[trigger] super::disk_index::entry_lists(
                triple_index(edges, nodes),
            )[i]).len() > 0,
    decreases nodes,
{
    if nodes > 0 {
        triples_filled(edges, (nodes - 1) as nat);
        let rest = triple_index(edges, (nodes - 1) as nat);
        assert forall|i: int| 0 <= i < triple_index(edges, nodes).len() implies (
        #[trigger] super::disk_index::entry_lists(triple_index(edges, nodes))[i]).len() > 0 by {
            if i < rest.len() {
                assert(super::disk_index::entry_lists(rest)[i].len() > 0);
            }
        }
    }
}

/// Edges have at most two ends on a side.
pub proof fn pairs_len(edges: Seq<EdgeView>, side: Side)
    ensures
        edge_pairs(edges, side).len() <= 2 * edges.len(),
        !(side is Undirected) ==> edge_pairs(edges, side).len() <= edges.len(),
    decreases edges.len(),
{
    if edges.len() > 0 {
        pairs_len(edges.drop_last(), side);
    }
}

} // verus!
