//! Path summaries: what of a path type later steps depend on.
//!
//! Once two shapes are put one after the other, the nodes inside are never
//! looked at again. A summary keeps only the alternatives' end nodes: the
//! single nodes, and for the others the first node, the last node and the
//! least number of edges between them.

use vstd::prelude::*;

use super::descriptor_type::{DescriptorType, DescriptorTypeView};
use super::path_type::{junction_nodes, EdgeDir, PathType, PathTypeView};
use super::variable_type::{Schema, SchemaView, VariableType, VariableTypeView};

verus! {

/// The end nodes of a path type's alternatives.
#[derive(Debug)]
pub struct PathSummary {
    nodes: Vec<DescriptorType>,
    pairs: Vec<(DescriptorType, DescriptorType, usize)>,
}

/// The value of a `PathSummary`: the single nodes, and the least number of
/// edges for each pair of first and last node.
pub struct PathSummaryView {
    pub nodes: Set<DescriptorTypeView>,
    pub pairs: Map<(DescriptorTypeView, DescriptorTypeView), nat>,
}

/// An alternative: its first node, its last node, its number of edges.
pub struct Arm {
    pub first: DescriptorTypeView,
    pub last: DescriptorTypeView,
    pub len: nat,
}

/// The least positive number with a property.
pub open spec fn least_positive(p: spec_fn(nat) -> bool) -> nat {
    choose|n: nat| n > 0 && #[trigger] p(n) && forall|m: nat| m > 0 && #[trigger] p(m) ==> n <= m
}

/// Where some positive number has a property, one of them is the least.
proof fn least_positive_exists(p: spec_fn(nat) -> bool, n: nat)
    requires
        n > 0,
        p(n),
    ensures
        least_positive(p) > 0,
        p(least_positive(p)),
        forall|m: nat| m > 0 && #[trigger] p(m) ==> least_positive(p) <= m,
    decreases n,
{
    if exists|m: nat| 0 < m < n && #[trigger] p(m) {
        let m = choose|m: nat| 0 < m < n && #[trigger] p(m);
        least_positive_exists(p, m);
    } else {
        assert(p(n));
        assert forall|m: nat| m > 0 && #[trigger] p(m) implies n <= m by {
            if m < n {
                assert(0 < m < n && p(m));
            }
        }
        let l = choose|n: nat|
            n > 0 && #[trigger] p(n) && forall|m: nat| m > 0 && #[trigger] p(m) ==> n <= m;
        assert(l > 0);
    }
}

/// The alternative that joins `x` and `y` at the node `r`. A single node is
/// the junction itself, so `r` takes its place.
pub open spec fn joined_arm(x: Arm, y: Arm, r: DescriptorTypeView) -> Arm {
    Arm {
        first: if x.len == 0 {
            r
        } else {
            x.first
        },
        last: if y.len == 0 {
            r
        } else {
            y.last
        },
        len: x.len + y.len,
    }
}

impl PathSummaryView {
    /// Pairs have at least one edge.
    pub open spec fn valid(self) -> bool {
        forall|k: (DescriptorTypeView, DescriptorTypeView)| #[trigger]
            self.pairs.contains_key(k) ==> self.pairs[k] > 0
    }

    /// There is an alternative with the ends of `z` and at most as many edges.
    pub open spec fn reaches(self, z: Arm) -> bool {
        if z.len == 0 {
            z.first == z.last && self.nodes.contains(z.first)
        } else {
            self.pairs.contains_key((z.first, z.last)) && self.pairs[(z.first, z.last)] <= z.len
        }
    }

    /// The summary of a set of alternatives.
    pub open spec fn of(p: spec_fn(Arm) -> bool) -> PathSummaryView {
        PathSummaryView {
            nodes: Set::new(|d: DescriptorTypeView| p(Arm { first: d, last: d, len: 0 })),
            pairs: Map::new(
                |k: (DescriptorTypeView, DescriptorTypeView)|
                    exists|n: nat|
                        n > 0 && #[trigger] p(Arm { first: k.0, last: k.1, len: n }),
                |k: (DescriptorTypeView, DescriptorTypeView)|
                    least_positive(|n: nat| p(Arm { first: k.0, last: k.1, len: n })),
            ),
        }
    }

    /// No alternative.
    pub open spec fn zero() -> PathSummaryView {
        PathSummaryView { nodes: Set::empty(), pairs: Map::empty() }
    }

    /// A single node.
    pub open spec fn node(d: DescriptorTypeView) -> PathSummaryView {
        PathSummaryView { nodes: set![d], pairs: Map::empty() }
    }

    /// One more alternative with edges.
    pub open spec fn with_pair(
        self,
        f: DescriptorTypeView,
        l: DescriptorTypeView,
        n: nat,
    ) -> PathSummaryView {
        if self.pairs.contains_key((f, l)) && self.pairs[(f, l)] <= n {
            self
        } else {
            PathSummaryView { nodes: self.nodes, pairs: self.pairs.insert((f, l), n) }
        }
    }

    /// The alternatives of both.
    pub open spec fn union(self, other: PathSummaryView) -> PathSummaryView {
        PathSummaryView {
            nodes: self.nodes.union(other.nodes),
            pairs: Map::new(
                |k: (DescriptorTypeView, DescriptorTypeView)|
                    self.pairs.contains_key(k) || other.pairs.contains_key(k),
                |k: (DescriptorTypeView, DescriptorTypeView)|
                    if self.pairs.contains_key(k) && (!other.pairs.contains_key(k)
                        || self.pairs[k] <= other.pairs[k]) {
                        self.pairs[k]
                    } else {
                        other.pairs[k]
                    },
            ),
        }
    }

    /// An alternative of `a` followed by one of `b`, joined at a node that the
    /// last node of the first and the first node of the second have in common.
    pub open spec fn composes(
        schema: SchemaView,
        a: PathSummaryView,
        b: PathSummaryView,
        z: Arm,
    ) -> bool {
        exists|x: Arm, y: Arm, r: DescriptorTypeView|
            a.reaches(x) && b.reaches(y) && #[trigger] schema.junction(x.last, y.first).contains(r)
                && z == #[trigger] joined_arm(x, y, r)
    }

    /// Two summaries one after the other.
    pub open spec fn meet(
        schema: SchemaView,
        a: PathSummaryView,
        b: PathSummaryView,
    ) -> PathSummaryView {
        PathSummaryView::of(|z: Arm| PathSummaryView::composes(schema, a, b, z))
    }

    /// A summary repeated `n` times.
    pub open spec fn pow(schema: SchemaView, p: PathSummaryView, n: nat) -> PathSummaryView
        decreases n,
    {
        if n == 0 {
            PathSummaryView::node(DescriptorTypeView::star())
        } else if n == 1 {
            p
        } else {
            PathSummaryView::meet(schema, p, PathSummaryView::pow(schema, p, (n - 1) as nat))
        }
    }

    /// Every alternative continued by an edge to `d`.
    pub open spec fn extended(self, d: DescriptorTypeView) -> PathSummaryView {
        PathSummaryView::of(
            |z: Arm|
                z.last == d && exists|x: Arm| #[trigger]
                    self.reaches(x) && x.first == z.first && x.len < z.len,
        )
    }

    /// No alternative is left.
    pub open spec fn is_unsatisfiable(self) -> bool {
        self.nodes == Set::<DescriptorTypeView>::empty() && self.pairs == Map::<
            (DescriptorTypeView, DescriptorTypeView),
            nat,
        >::empty()
    }

    /// Some alternative has no edges, or there is none at all.
    pub open spec fn is_empty(self) -> bool {
        self.nodes != Set::<DescriptorTypeView>::empty() || self.pairs == Map::<
            (DescriptorTypeView, DescriptorTypeView),
            nat,
        >::empty()
    }

    /// `n` is the least number of edges; zero where there is no alternative.
    pub open spec fn has_len(self, n: nat) -> bool {
        if self.is_empty() {
            n == 0
        } else {
            &&& exists|k: (DescriptorTypeView, DescriptorTypeView)| #[trigger]
                self.pairs.contains_key(k) && self.pairs[k] == n
            &&& forall|k: (DescriptorTypeView, DescriptorTypeView)| #[trigger]
                self.pairs.contains_key(k) ==> n <= self.pairs[k]
        }
    }

    /// The pairs of an edge between two node types, seen in a direction.
    pub open spec fn edge_pairs(
        left: VariableTypeView,
        right: VariableTypeView,
        dir: EdgeDir,
    ) -> PathSummaryView {
        if left is Node && right is Node {
            let l = left->Node_0;
            let r = right->Node_0;
            match dir {
                EdgeDir::Right => PathSummaryView::zero().with_pair(l, r, 1),
                EdgeDir::Left => PathSummaryView::zero().with_pair(r, l, 1),
                _ => PathSummaryView::zero().with_pair(l, r, 1).with_pair(r, l, 1),
            }
        } else {
            PathSummaryView::zero()
        }
    }

    /// The summary of a variable type crossed in a direction.
    pub open spec fn from_variable(t: VariableTypeView, dir: EdgeDir) -> PathSummaryView
        decreases t,
    {
        match t {
            VariableTypeView::Node(d) => PathSummaryView::node(d),
            VariableTypeView::EdgeDirectional { left, right, .. } => PathSummaryView::edge_pairs(
                *left,
                *right,
                dir,
            ),
            VariableTypeView::EdgeNonDirectional { left, right, .. } =>
                PathSummaryView::edge_pairs(*left, *right, EdgeDir::Any),
            VariableTypeView::Union(a, b) => PathSummaryView::from_variable(*a, dir).union(
                PathSummaryView::from_variable(*b, dir),
            ),
            _ => PathSummaryView::zero(),
        }
    }

    /// The summary of a path type. An alternative with an empty node is dead
    /// and counts for nothing.
    pub open spec fn summarize(p: PathTypeView) -> PathSummaryView
        decreases p,
    {
        match p {
            PathTypeView::Zero => PathSummaryView::zero(),
            PathTypeView::Node(d) => if d.is_empty() {
                PathSummaryView::zero()
            } else {
                PathSummaryView::node(d)
            },
            PathTypeView::Edge(q, d) => if d.is_empty() {
                PathSummaryView::zero()
            } else {
                PathSummaryView::summarize(*q).extended(d)
            },
            PathTypeView::Union(a, b) => PathSummaryView::summarize(*a).union(
                PathSummaryView::summarize(*b),
            ),
        }
    }
}

/// Two valid summaries that reach the same alternatives are equal.
pub proof fn same_reach(a: PathSummaryView, b: PathSummaryView)
    requires
        a.valid(),
        b.valid(),
        forall|z: Arm| #[trigger] a.reaches(z) == b.reaches(z),
    ensures
        a == b,
{
    assert forall|d: DescriptorTypeView| a.nodes.contains(d) == b.nodes.contains(d) by {
        let z = Arm { first: d, last: d, len: 0 };
        assert(a.reaches(z) == b.reaches(z));
    }
    assert(a.nodes =~= b.nodes);
    assert forall|k: (DescriptorTypeView, DescriptorTypeView)|
        a.pairs.contains_key(k) == b.pairs.contains_key(k) && (a.pairs.contains_key(k)
            ==> a.pairs[k] == b.pairs[k]) by {
        if a.pairs.contains_key(k) {
            let z = Arm { first: k.0, last: k.1, len: a.pairs[k] };
            assert(a.reaches(z) == b.reaches(z));
            assert((k.0, k.1) == k);
        }
        if b.pairs.contains_key(k) {
            let z = Arm { first: k.0, last: k.1, len: b.pairs[k] };
            assert(a.reaches(z) == b.reaches(z));
            assert((k.0, k.1) == k);
        }
    }
    assert(a.pairs =~= b.pairs);
}

/// A set of alternatives with edges is closed under more edges, and its
/// alternatives without edges have one node.
pub open spec fn closed(p: spec_fn(Arm) -> bool) -> bool {
    &&& forall|z: Arm, w: Arm|
        #[trigger] p(z) && z.len > 0 && w.first == z.first && w.last == z.last && w.len >= z.len
            ==> #[trigger] p(w)
    &&& forall|z: Arm| #[trigger] p(z) && z.len == 0 ==> z.first == z.last
}

/// The summary of a closed set reaches exactly the set.
pub proof fn of_reaches(p: spec_fn(Arm) -> bool)
    requires
        closed(p),
    ensures
        PathSummaryView::of(p).valid(),
        forall|z: Arm| #[trigger] PathSummaryView::of(p).reaches(z) == p(z),
{
    let s = PathSummaryView::of(p);
    assert forall|k: (DescriptorTypeView, DescriptorTypeView)| #[trigger]
        s.pairs.contains_key(k) implies s.pairs[k] > 0 && p(
        Arm { first: k.0, last: k.1, len: s.pairs[k] },
    ) && forall|m: nat|
        m > 0 && #[trigger] p(Arm { first: k.0, last: k.1, len: m }) ==> s.pairs[k] <= m by {
        let q = |n: nat| p(Arm { first: k.0, last: k.1, len: n });
        let n = choose|n: nat| n > 0 && #[trigger] p(Arm { first: k.0, last: k.1, len: n });
        assert(q(n));
        least_positive_exists(q, n);
        assert forall|m: nat|
            m > 0 && #[trigger] p(Arm { first: k.0, last: k.1, len: m }) implies s.pairs[k]
            <= m by {
            assert(q(m));
        }
    }
    assert forall|z: Arm| #[trigger] s.reaches(z) == p(z) by {
        if z.len == 0 {
            if p(z) {
                assert(z.first == z.last);
                assert(z == Arm { first: z.first, last: z.first, len: 0 });
            }
            if s.reaches(z) {
                assert(z == Arm { first: z.first, last: z.first, len: 0 });
            }
        } else {
            let k = (z.first, z.last);
            if p(z) {
                assert(z == Arm { first: k.0, last: k.1, len: z.len });
                assert(s.pairs.contains_key(k));
            }
            if s.reaches(z) {
                assert(s.pairs.contains_key(k));
                let w = Arm { first: k.0, last: k.1, len: s.pairs[k] };
                assert(p(w));
                assert(p(z));
            }
        }
    }
}

/// Reaching is closed.
pub proof fn reach_closed(s: PathSummaryView, z: Arm, w: Arm)
    requires
        s.reaches(z),
        z.len > 0,
        w.first == z.first,
        w.last == z.last,
        w.len >= z.len,
    ensures
        s.reaches(w),
{
}

/// What composition reaches.
pub proof fn meet_reaches(schema: SchemaView, a: PathSummaryView, b: PathSummaryView)
    ensures
        PathSummaryView::meet(schema, a, b).valid(),
        forall|z: Arm| #[trigger]
            PathSummaryView::meet(schema, a, b).reaches(z) == PathSummaryView::composes(
                schema,
                a,
                b,
                z,
            ),
{
    let p = |z: Arm| PathSummaryView::composes(schema, a, b, z);
    assert forall|z: Arm, w: Arm|
        #[trigger] p(z) && z.len > 0 && w.first == z.first && w.last == z.last && w.len
            >= z.len implies #[trigger] p(w) by {
        let (x, y, r) = choose|x: Arm, y: Arm, r: DescriptorTypeView|
            a.reaches(x) && b.reaches(y) && #[trigger] schema.junction(x.last, y.first).contains(
                r,
            ) && z == #[trigger] joined_arm(x, y, r);
        let more = (w.len - z.len) as nat;
        if x.len > 0 {
            let x2 = Arm { first: x.first, last: x.last, len: x.len + more };
            reach_closed(a, x, x2);
            assert(schema.junction(x2.last, y.first).contains(r));
            assert(w == joined_arm(x2, y, r));
        } else {
            let y2 = Arm { first: y.first, last: y.last, len: y.len + more };
            reach_closed(b, y, y2);
            assert(schema.junction(x.last, y2.first).contains(r));
            assert(w == joined_arm(x, y2, r));
        }
    }
    assert forall|z: Arm| #[trigger] p(z) && z.len == 0 implies z.first == z.last by {
        let (x, y, r) = choose|x: Arm, y: Arm, r: DescriptorTypeView|
            a.reaches(x) && b.reaches(y) && #[trigger] schema.junction(x.last, y.first).contains(
                r,
            ) && z == #[trigger] joined_arm(x, y, r);
    }
    of_reaches(p);
    assert forall|z: Arm| #[trigger]
        PathSummaryView::meet(schema, a, b).reaches(z) == PathSummaryView::composes(
            schema,
            a,
            b,
            z,
        ) by {
        assert(PathSummaryView::of(p).reaches(z) == p(z));
    }
}

/// What an extension reaches.
pub proof fn extended_reaches(s: PathSummaryView, d: DescriptorTypeView)
    ensures
        s.extended(d).valid(),
        forall|z: Arm| #[trigger]
            s.extended(d).reaches(z) == (z.last == d && exists|x: Arm| #[trigger]
                s.reaches(x) && x.first == z.first && x.len < z.len),
{
    let p = |z: Arm|
        z.last == d && exists|x: Arm| #[trigger]
            s.reaches(x) && x.first == z.first && x.len < z.len;
    assert(closed(p));
    of_reaches(p);
    assert forall|z: Arm| #[trigger]
        s.extended(d).reaches(z) == (z.last == d && exists|x: Arm| #[trigger]
            s.reaches(x) && x.first == z.first && x.len < z.len) by {
        assert(PathSummaryView::of(p).reaches(z) == p(z));
    }
}

/// What a union reaches.
pub proof fn union_reaches(a: PathSummaryView, b: PathSummaryView)
    requires
        a.valid(),
        b.valid(),
    ensures
        a.union(b).valid(),
        forall|z: Arm| #[trigger] a.union(b).reaches(z) == (a.reaches(z) || b.reaches(z)),
{
}

/// What one more alternative reaches.
proof fn with_pair_reaches(
    s: PathSummaryView,
    f: DescriptorTypeView,
    l: DescriptorTypeView,
    n: nat,
)
    requires
        s.valid(),
        n > 0,
    ensures
        s.with_pair(f, l, n).valid(),
        forall|z: Arm| #[trigger]
            s.with_pair(f, l, n).reaches(z) == (s.reaches(z) || (z.first == f && z.last == l
                && z.len >= n)),
{
    let t = s.with_pair(f, l, n);
    assert forall|z: Arm| #[trigger] t.reaches(z) == (s.reaches(z) || (z.first == f && z.last == l
        && z.len >= n)) by {
        if z.len > 0 && (z.first, z.last) == (f, l) {
        }
    }
}

/// The summary of a path type is valid.
pub proof fn summarize_valid(p: PathTypeView)
    ensures
        PathSummaryView::summarize(p).valid(),
    decreases p,
{
    match p {
        PathTypeView::Edge(q, d) => {
            extended_reaches(PathSummaryView::summarize(*q), d);
        },
        PathTypeView::Union(a, b) => {
            summarize_valid(*a);
            summarize_valid(*b);
            union_reaches(PathSummaryView::summarize(*a), PathSummaryView::summarize(*b));
        },
        _ => {},
    }
}

/// Summarizing commutes with union.
pub proof fn summarize_union(p: PathTypeView, q: PathTypeView)
    ensures
        PathSummaryView::summarize(p.union(q)) == PathSummaryView::summarize(p).union(
            PathSummaryView::summarize(q),
        ),
{
    let a = PathSummaryView::summarize(p);
    let b = PathSummaryView::summarize(q);
    summarize_valid(p);
    summarize_valid(q);
    summarize_valid(p.union(q));
    union_reaches(a, b);
    let s = PathSummaryView::summarize(p.union(q));
    assert forall|z: Arm| #[trigger] s.reaches(z) == a.union(b).reaches(z) by {}
    same_reach(s, a.union(b));
}

/// Some live alternative of the shape has exactly `n` edges.
pub open spec fn live_len(p: PathTypeView, n: nat) -> bool
    decreases p,
{
    match p {
        PathTypeView::Zero => false,
        PathTypeView::Node(d) => n == 0 && !d.is_empty(),
        PathTypeView::Edge(q, d) => n > 0 && !d.is_empty() && live_len(*q, (n - 1) as nat),
        PathTypeView::Union(a, b) => live_len(*a, n) || live_len(*b, n),
    }
}

/// Where the summary reaches, some live alternative is no longer.
proof fn reached_is_live(p: PathTypeView, z: Arm) -> (m: nat)
    requires
        PathSummaryView::summarize(p).reaches(z),
    ensures
        m <= z.len,
        z.len > 0 ==> m > 0,
        live_len(p, m),
    decreases p,
{
    match p {
        PathTypeView::Zero => 0,
        PathTypeView::Node(d) => 0,
        PathTypeView::Edge(q, d) => {
            let t = PathSummaryView::summarize(*q);
            extended_reaches(t, d);
            let x = choose|x: Arm| #[trigger] t.reaches(x) && x.first == z.first && x.len < z.len;
            let k = reached_is_live(*q, x);
            k + 1
        },
        PathTypeView::Union(a, b) => {
            let sa = PathSummaryView::summarize(*a);
            let sb = PathSummaryView::summarize(*b);
            summarize_valid(*a);
            summarize_valid(*b);
            union_reaches(sa, sb);
            if sa.reaches(z) {
                reached_is_live(*a, z)
            } else {
                reached_is_live(*b, z)
            }
        },
    }
}

/// The summary reaches every live alternative.
proof fn live_is_reached(p: PathTypeView, m: nat) -> (z: Arm)
    requires
        live_len(p, m),
    ensures
        PathSummaryView::summarize(p).reaches(z),
        z.len == m,
    decreases p,
{
    match p {
        PathTypeView::Node(d) => Arm { first: d, last: d, len: 0 },
        PathTypeView::Edge(q, d) => {
            let t = PathSummaryView::summarize(*q);
            extended_reaches(t, d);
            let x = live_is_reached(*q, (m - 1) as nat);
            let z = Arm { first: x.first, last: d, len: m };
            assert(t.reaches(x) && x.first == z.first && x.len < z.len);
            z
        },
        PathTypeView::Union(a, b) => {
            let sa = PathSummaryView::summarize(*a);
            let sb = PathSummaryView::summarize(*b);
            summarize_valid(*a);
            summarize_valid(*b);
            union_reaches(sa, sb);
            if live_len(*a, m) {
                live_is_reached(*a, m)
            } else {
                live_is_reached(*b, m)
            }
        },
        PathTypeView::Zero => arbitrary(),
    }
}

/// A shape with a live alternative is satisfiable.
proof fn live_is_satisfiable(p: PathTypeView, n: nat)
    requires
        live_len(p, n),
    ensures
        !p.is_unsatisfiable(),
    decreases p,
{
    match p {
        PathTypeView::Edge(q, d) => {
            live_is_satisfiable(*q, (n - 1) as nat);
        },
        PathTypeView::Union(a, b) => {
            if live_len(*a, n) {
                live_is_satisfiable(*a, n);
            } else {
                live_is_satisfiable(*b, n);
            }
        },
        _ => {},
    }
}

/// A satisfiable shape has a live alternative.
proof fn satisfiable_is_live(p: PathTypeView) -> (n: nat)
    requires
        !p.is_unsatisfiable(),
    ensures
        live_len(p, n),
    decreases p,
{
    match p {
        PathTypeView::Edge(q, d) => {
            let k = satisfiable_is_live(*q);
            assert(live_len(p, k + 1));
            k + 1
        },
        PathTypeView::Union(a, b) => {
            if !a.is_unsatisfiable() {
                satisfiable_is_live(*a)
            } else {
                satisfiable_is_live(*b)
            }
        },
        _ => 0,
    }
}

/// A summary that reaches something is not without alternatives.
proof fn reached_is_satisfiable(s: PathSummaryView, z: Arm)
    requires
        s.reaches(z),
    ensures
        !s.is_unsatisfiable(),
        z.len == 0 ==> s.nodes != Set::<DescriptorTypeView>::empty(),
{
    if z.len == 0 {
        assert(s.nodes.contains(z.first));
    } else {
        assert(s.pairs.contains_key((z.first, z.last)));
    }
}

/// A summary with single nodes reaches one of them.
proof fn some_node(s: PathSummaryView) -> (z: Arm)
    requires
        s.nodes != Set::<DescriptorTypeView>::empty(),
    ensures
        z.len == 0,
        s.reaches(z),
{
    if forall|d: DescriptorTypeView| !s.nodes.contains(d) {
        assert(s.nodes =~= Set::<DescriptorTypeView>::empty());
    }
    let d = choose|d: DescriptorTypeView| s.nodes.contains(d);
    Arm { first: d, last: d, len: 0 }
}

/// A summary with alternatives reaches one of them.
proof fn some_arm(s: PathSummaryView) -> (z: Arm)
    requires
        s.valid(),
        !s.is_unsatisfiable(),
    ensures
        s.reaches(z),
{
    if s.nodes != Set::<DescriptorTypeView>::empty() {
        some_node(s)
    } else {
        if forall|k: (DescriptorTypeView, DescriptorTypeView)| !s.pairs.contains_key(k) {
            assert(s.pairs =~= Map::<(DescriptorTypeView, DescriptorTypeView), nat>::empty());
        }
        let k = choose|k: (DescriptorTypeView, DescriptorTypeView)| s.pairs.contains_key(k);
        assert((k.0, k.1) == k);
        Arm { first: k.0, last: k.1, len: s.pairs[k] }
    }
}

/// A path type and its summary are unsatisfiable together.
pub proof fn summarize_unsatisfiable(p: PathTypeView)
    ensures
        PathSummaryView::summarize(p).is_unsatisfiable() == p.is_unsatisfiable(),
{
    let s = PathSummaryView::summarize(p);
    summarize_valid(p);
    if !s.is_unsatisfiable() {
        let z = some_arm(s);
        let m = reached_is_live(p, z);
        live_is_satisfiable(p, m);
    }
    if !p.is_unsatisfiable() {
        let n = satisfiable_is_live(p);
        let z = live_is_reached(p, n);
        reached_is_satisfiable(s, z);
    }
}

/// The summary is empty where the path type has a live alternative without
/// edges, or none at all.
pub proof fn summarize_is_empty(p: PathTypeView)
    ensures
        PathSummaryView::summarize(p).is_empty() == (live_len(p, 0) || p.is_unsatisfiable()),
{
    let s = PathSummaryView::summarize(p);
    summarize_unsatisfiable(p);
    if live_len(p, 0) {
        let z = live_is_reached(p, 0);
        reached_is_satisfiable(s, z);
    }
    if s.nodes != Set::<DescriptorTypeView>::empty() {
        let z = some_node(s);
        let m = reached_is_live(p, z);
    }
}

/// The length of the summary is the number of edges of the shortest live
/// alternative, and zero where there is none.
pub proof fn summarize_len(p: PathTypeView, n: nat)
    requires
        PathSummaryView::summarize(p).has_len(n),
    ensures
        if p.is_unsatisfiable() {
            n == 0
        } else {
            live_len(p, n) && forall|m: nat| #[trigger] live_len(p, m) ==> n <= m
        },
{
    let s = PathSummaryView::summarize(p);
    summarize_valid(p);
    summarize_unsatisfiable(p);
    summarize_is_empty(p);
    if !p.is_unsatisfiable() && !s.is_empty() {
        let k = choose|k: (DescriptorTypeView, DescriptorTypeView)| #[trigger]
            s.pairs.contains_key(k) && s.pairs[k] == n;
        let z = Arm { first: k.0, last: k.1, len: n };
        assert((k.0, k.1) == k);
        assert(s.reaches(z));
        let m = reached_is_live(p, z);
        let w = live_is_reached(p, m);
        assert(s.pairs.contains_key((w.first, w.last)));
        assert(m == n);
        assert forall|q: nat| #[trigger] live_len(p, q) implies n <= q by {
            let v = live_is_reached(p, q);
            if q > 0 {
                assert(s.pairs.contains_key((v.first, v.last)));
            } else {
                reached_is_satisfiable(s, v);
            }
        }
    }
}

/// Every node at which an alternative of `a` can be joined with one of `b` can
/// be inhabited.
pub open spec fn live_junctions(
    schema: SchemaView,
    a: PathSummaryView,
    b: PathSummaryView,
) -> bool {
    forall|x: Arm, y: Arm, r: DescriptorTypeView|
        #[trigger] a.reaches(x) && #[trigger] b.reaches(y) && #[trigger] schema.junction(
            x.last,
            y.first,
        ).contains(r) ==> !r.is_empty()
}

/// Composition distributes over union on the left.
proof fn meet_union_left(
    schema: SchemaView,
    a1: PathSummaryView,
    a2: PathSummaryView,
    b: PathSummaryView,
)
    requires
        a1.valid(),
        a2.valid(),
    ensures
        PathSummaryView::meet(schema, a1.union(a2), b) == PathSummaryView::meet(
            schema,
            a1,
            b,
        ).union(PathSummaryView::meet(schema, a2, b)),
{
    let m1 = PathSummaryView::meet(schema, a1, b);
    let m2 = PathSummaryView::meet(schema, a2, b);
    let m = PathSummaryView::meet(schema, a1.union(a2), b);
    union_reaches(a1, a2);
    meet_reaches(schema, a1, b);
    meet_reaches(schema, a2, b);
    meet_reaches(schema, a1.union(a2), b);
    union_reaches(m1, m2);
    assert forall|z: Arm| #[trigger] m.reaches(z) == m1.union(m2).reaches(z) by {
        if m.reaches(z) {
            let (x, y, r) = choose|x: Arm, y: Arm, r: DescriptorTypeView|
                a1.union(a2).reaches(x) && b.reaches(y) && #[trigger] schema.junction(
                    x.last,
                    y.first,
                ).contains(r) && z == #[trigger] joined_arm(x, y, r);
            if a1.reaches(x) {
                assert(PathSummaryView::composes(schema, a1, b, z));
            } else {
                assert(PathSummaryView::composes(schema, a2, b, z));
            }
        }
        if m1.reaches(z) {
            let (x, y, r) = choose|x: Arm, y: Arm, r: DescriptorTypeView|
                a1.reaches(x) && b.reaches(y) && #[trigger] schema.junction(
                    x.last,
                    y.first,
                ).contains(r) && z == #[trigger] joined_arm(x, y, r);
            assert(a1.union(a2).reaches(x));
        }
        if m2.reaches(z) {
            let (x, y, r) = choose|x: Arm, y: Arm, r: DescriptorTypeView|
                a2.reaches(x) && b.reaches(y) && #[trigger] schema.junction(
                    x.last,
                    y.first,
                ).contains(r) && z == #[trigger] joined_arm(x, y, r);
            assert(a1.union(a2).reaches(x));
        }
    }
    same_reach(m, m1.union(m2));
}

/// Composition distributes over union on the right.
proof fn meet_union_right(
    schema: SchemaView,
    a: PathSummaryView,
    b1: PathSummaryView,
    b2: PathSummaryView,
)
    requires
        b1.valid(),
        b2.valid(),
    ensures
        PathSummaryView::meet(schema, a, b1.union(b2)) == PathSummaryView::meet(
            schema,
            a,
            b1,
        ).union(PathSummaryView::meet(schema, a, b2)),
{
    let m1 = PathSummaryView::meet(schema, a, b1);
    let m2 = PathSummaryView::meet(schema, a, b2);
    let m = PathSummaryView::meet(schema, a, b1.union(b2));
    union_reaches(b1, b2);
    meet_reaches(schema, a, b1);
    meet_reaches(schema, a, b2);
    meet_reaches(schema, a, b1.union(b2));
    union_reaches(m1, m2);
    assert forall|z: Arm| #[trigger] m.reaches(z) == m1.union(m2).reaches(z) by {
        if m.reaches(z) {
            let (x, y, r) = choose|x: Arm, y: Arm, r: DescriptorTypeView|
                a.reaches(x) && b1.union(b2).reaches(y) && #[trigger] schema.junction(
                    x.last,
                    y.first,
                ).contains(r) && z == #[trigger] joined_arm(x, y, r);
            if b1.reaches(y) {
                assert(PathSummaryView::composes(schema, a, b1, z));
            } else {
                assert(PathSummaryView::composes(schema, a, b2, z));
            }
        }
        if m1.reaches(z) {
            let (x, y, r) = choose|x: Arm, y: Arm, r: DescriptorTypeView|
                a.reaches(x) && b1.reaches(y) && #[trigger] schema.junction(
                    x.last,
                    y.first,
                ).contains(r) && z == #[trigger] joined_arm(x, y, r);
            assert(b1.union(b2).reaches(y));
        }
        if m2.reaches(z) {
            let (x, y, r) = choose|x: Arm, y: Arm, r: DescriptorTypeView|
                a.reaches(x) && b2.reaches(y) && #[trigger] schema.junction(
                    x.last,
                    y.first,
                ).contains(r) && z == #[trigger] joined_arm(x, y, r);
            assert(b1.union(b2).reaches(y));
        }
    }
    same_reach(m, m1.union(m2));
}

/// Composing with an extension is extending the composition.
proof fn meet_extended(
    schema: SchemaView,
    a: PathSummaryView,
    b: PathSummaryView,
    d: DescriptorTypeView,
)
    ensures
        PathSummaryView::meet(schema, a, b.extended(d)) == PathSummaryView::meet(
            schema,
            a,
            b,
        ).extended(d),
{
    let e = b.extended(d);
    let m = PathSummaryView::meet(schema, a, b);
    let lhs = PathSummaryView::meet(schema, a, e);
    let rhs = m.extended(d);
    extended_reaches(b, d);
    meet_reaches(schema, a, e);
    meet_reaches(schema, a, b);
    extended_reaches(m, d);
    assert forall|z: Arm| #[trigger] lhs.reaches(z) == rhs.reaches(z) by {
        if lhs.reaches(z) {
            let (x, y, r) = choose|x: Arm, y: Arm, r: DescriptorTypeView|
                a.reaches(x) && e.reaches(y) && #[trigger] schema.junction(
                    x.last,
                    y.first,
                ).contains(r) && z == #[trigger] joined_arm(x, y, r);
            let w = choose|w: Arm| #[trigger]
                b.reaches(w) && w.first == y.first && w.len < y.len;
            let v = joined_arm(x, w, r);
            assert(schema.junction(x.last, w.first).contains(r));
            assert(PathSummaryView::composes(schema, a, b, v));
            assert(m.reaches(v) && v.first == z.first && v.len < z.len);
        }
        if rhs.reaches(z) {
            let v = choose|v: Arm| #[trigger]
                m.reaches(v) && v.first == z.first && v.len < z.len;
            assert(PathSummaryView::composes(schema, a, b, v));
            let (x, w, r) = choose|x: Arm, w: Arm, r: DescriptorTypeView|
                a.reaches(x) && b.reaches(w) && #[trigger] schema.junction(
                    x.last,
                    w.first,
                ).contains(r) && v == #[trigger] joined_arm(x, w, r);
            let y = Arm { first: w.first, last: d, len: (z.len - x.len) as nat };
            assert(b.reaches(w) && w.first == y.first && w.len < y.len);
            assert(e.reaches(y));
            assert(schema.junction(x.last, y.first).contains(r));
            assert(z == joined_arm(x, y, r));
        }
    }
    same_reach(lhs, rhs);
}

/// The summary of the union of single nodes.
proof fn summarize_node_paths(ds: Seq<DescriptorTypeView>)
    ensures
        forall|z: Arm| #[trigger]
            PathSummaryView::summarize(
                PathTypeView::union_all(super::path_type::node_paths(ds)),
            ).reaches(z) == (z.len == 0 && z.first == z.last && ds.contains(z.first)
                && !z.first.is_empty()),
    decreases ds.len(),
{
    let ps = super::path_type::node_paths(ds);
    if ds.len() > 0 {
        let rest = ds.drop_last();
        assert(ps.drop_last() =~= super::path_type::node_paths(rest));
        summarize_node_paths(rest);
        let p = PathTypeView::union_all(ps.drop_last());
        let q = ps.last();
        summarize_union(p, q);
        summarize_valid(p);
        summarize_valid(q);
        union_reaches(PathSummaryView::summarize(p), PathSummaryView::summarize(q));
        assert(ds =~= rest.push(ds.last()));
        assert forall|z: Arm| #[trigger]
            PathSummaryView::summarize(PathTypeView::union_all(ps)).reaches(z) == (z.len == 0
                && z.first == z.last && ds.contains(z.first) && !z.first.is_empty()) by {
            if ds.contains(z.first) && !rest.contains(z.first) {
                let i = choose|i: int| 0 <= i < ds.len() && ds[i] == z.first;
                if i < ds.len() - 1 {
                    assert(rest[i] == z.first);
                }
            }
            if rest.contains(z.first) {
                let i = choose|i: int| 0 <= i < rest.len() && rest[i] == z.first;
                assert(ds[i] == z.first);
            }
            assert(ds[ds.len() - 1] == ds.last());
        }
    }
}

/// The summary of a path continued to several nodes.
proof fn summarize_edge_paths(p: PathTypeView, ds: Seq<DescriptorTypeView>)
    ensures
        forall|z: Arm| #[trigger]
            PathSummaryView::summarize(
                PathTypeView::union_all(super::path_type::edge_paths(p, ds)),
            ).reaches(z) == (ds.contains(z.last) && !z.last.is_empty() && exists|x: Arm| #[trigger]
                PathSummaryView::summarize(p).reaches(x) && x.first == z.first && x.len < z.len),
    decreases ds.len(),
{
    let ps = super::path_type::edge_paths(p, ds);
    if ds.len() > 0 {
        let rest = ds.drop_last();
        assert(ps.drop_last() =~= super::path_type::edge_paths(p, rest));
        summarize_edge_paths(p, rest);
        let a = PathTypeView::union_all(ps.drop_last());
        let q = ps.last();
        summarize_union(a, q);
        summarize_valid(a);
        summarize_valid(q);
        union_reaches(PathSummaryView::summarize(a), PathSummaryView::summarize(q));
        extended_reaches(PathSummaryView::summarize(p), ds.last());
        assert forall|z: Arm| #[trigger]
            PathSummaryView::summarize(PathTypeView::union_all(ps)).reaches(z) == (ds.contains(
                z.last,
            ) && !z.last.is_empty() && exists|x: Arm| #[trigger]
                PathSummaryView::summarize(p).reaches(x) && x.first == z.first && x.len
                    < z.len) by {
            if ds.contains(z.last) && !rest.contains(z.last) {
                let i = choose|i: int| 0 <= i < ds.len() && ds[i] == z.last;
                if i < ds.len() - 1 {
                    assert(rest[i] == z.last);
                }
            }
            if rest.contains(z.last) {
                let i = choose|i: int| 0 <= i < rest.len() && rest[i] == z.last;
                assert(ds[i] == z.last);
            }
            assert(ds[ds.len() - 1] == ds.last());
        }
    }
}

/// Pruning an unsatisfiable alternative does not change the summary.
proof fn summarize_prune(p: PathTypeView, q: PathTypeView)
    ensures
        PathSummaryView::summarize(p.prune(q)) == PathSummaryView::summarize(p).union(
            PathSummaryView::summarize(q),
        ),
{
    let a = PathSummaryView::summarize(p);
    let b = PathSummaryView::summarize(q);
    summarize_valid(p);
    summarize_valid(q);
    summarize_union(p, q);
    summarize_unsatisfiable(p);
    summarize_unsatisfiable(q);
    union_reaches(a, b);
    if p.is_unsatisfiable() {
        assert forall|z: Arm| #[trigger] b.reaches(z) == a.union(b).reaches(z) by {}
        same_reach(b, a.union(b));
    } else if q.is_unsatisfiable() {
        assert forall|z: Arm| #[trigger] a.reaches(z) == a.union(b).reaches(z) by {}
        same_reach(a, a.union(b));
    }
}

/// Summarizing commutes with putting shapes one after the other, wherever the
/// nodes at which they are joined can be inhabited.
pub proof fn summarize_meet(schema: SchemaView, p: PathTypeView, q: PathTypeView)
    requires
        live_junctions(schema, PathSummaryView::summarize(p), PathSummaryView::summarize(q)),
    ensures
        PathSummaryView::summarize(PathTypeView::meet(schema, p, q)) == PathSummaryView::meet(
            schema,
            PathSummaryView::summarize(p),
            PathSummaryView::summarize(q),
        ),
    decreases q, p,
{
    let a = PathSummaryView::summarize(p);
    let b = PathSummaryView::summarize(q);
    let t = PathTypeView::meet(schema, p, q);
    let s = PathSummaryView::summarize(t);
    let m = PathSummaryView::meet(schema, a, b);
    summarize_valid(p);
    summarize_valid(q);
    summarize_valid(t);
    meet_reaches(schema, a, b);
    match (p, q) {
        (PathTypeView::Zero, _) => {
            assert forall|z: Arm| #[trigger] s.reaches(z) == m.reaches(z) by {}
            same_reach(s, m);
        },
        (_, PathTypeView::Zero) => {
            assert forall|z: Arm| #[trigger] s.reaches(z) == m.reaches(z) by {}
            same_reach(s, m);
        },
        (PathTypeView::Node(d1), PathTypeView::Node(d2)) => {
            summarize_meet_nodes(schema, d1, d2);
        },
        (PathTypeView::Edge(p1, d1), PathTypeView::Node(d2)) => {
            summarize_meet_edge_node(schema, *p1, d1, d2);
        },
        (_, PathTypeView::Edge(q1, d)) => {
            let b1 = PathSummaryView::summarize(*q1);
            summarize_valid(*q1);
            extended_reaches(b1, d);
            if d.is_empty() {
                assert forall|z: Arm| #[trigger] s.reaches(z) == m.reaches(z) by {}
                same_reach(s, m);
            } else {
                assert forall|x: Arm, y: Arm, r: DescriptorTypeView|
                    #[trigger] a.reaches(x) && #[trigger] b1.reaches(y)
                        && #[trigger] schema.junction(x.last, y.first).contains(
                        r,
                    ) implies !r.is_empty() by {
                    let w = Arm { first: y.first, last: d, len: y.len + 1 };
                    assert(b1.reaches(y) && y.first == w.first && y.len < w.len);
                    assert(b.reaches(w));
                    assert(schema.junction(x.last, w.first).contains(r));
                }
                summarize_meet(schema, p, *q1);
                meet_extended(schema, a, b1, d);
            }
        },
        (_, PathTypeView::Union(u1, u2)) => {
            let b1 = PathSummaryView::summarize(*u1);
            let b2 = PathSummaryView::summarize(*u2);
            summarize_valid(*u1);
            summarize_valid(*u2);
            union_reaches(b1, b2);
            assert forall|x: Arm, y: Arm, r: DescriptorTypeView|
                #[trigger] a.reaches(x) && #[trigger] b1.reaches(y) && #[trigger] schema.junction(
                    x.last,
                    y.first,
                ).contains(r) implies !r.is_empty() by {
                assert(b.reaches(y));
            }
            assert forall|x: Arm, y: Arm, r: DescriptorTypeView|
                #[trigger] a.reaches(x) && #[trigger] b2.reaches(y) && #[trigger] schema.junction(
                    x.last,
                    y.first,
                ).contains(r) implies !r.is_empty() by {
                assert(b.reaches(y));
            }
            summarize_meet(schema, p, *u1);
            summarize_meet(schema, p, *u2);
            summarize_prune(
                PathTypeView::meet(schema, p, *u1),
                PathTypeView::meet(schema, p, *u2),
            );
            meet_union_right(schema, a, b1, b2);
        },
        (PathTypeView::Union(u1, u2), _) => {
            let a1 = PathSummaryView::summarize(*u1);
            let a2 = PathSummaryView::summarize(*u2);
            summarize_valid(*u1);
            summarize_valid(*u2);
            union_reaches(a1, a2);
            assert forall|x: Arm, y: Arm, r: DescriptorTypeView|
                #[trigger] a1.reaches(x) && #[trigger] b.reaches(y) && #[trigger] schema.junction(
                    x.last,
                    y.first,
                ).contains(r) implies !r.is_empty() by {
                assert(a.reaches(x));
            }
            assert forall|x: Arm, y: Arm, r: DescriptorTypeView|
                #[trigger] a2.reaches(x) && #[trigger] b.reaches(y) && #[trigger] schema.junction(
                    x.last,
                    y.first,
                ).contains(r) implies !r.is_empty() by {
                assert(a.reaches(x));
            }
            summarize_meet(schema, *u1, q);
            summarize_meet(schema, *u2, q);
            summarize_prune(
                PathTypeView::meet(schema, *u1, q),
                PathTypeView::meet(schema, *u2, q),
            );
            meet_union_left(schema, a1, a2, b);
        },
    }
}

/// The nodes at which alternatives of `a` and `b` can be joined have something
/// in common.
pub open spec fn live_meets(a: PathSummaryView, b: PathSummaryView) -> bool {
    forall|x: Arm, y: Arm| #[trigger]
        a.reaches(x) && #[trigger] b.reaches(y) ==> !x.last.meet(y.first).is_empty()
}

/// Under a lively schema summarizing commutes with putting shapes one after the
/// other whose ends have something in common.
pub proof fn summarize_meet_lively(schema: SchemaView, p: PathTypeView, q: PathTypeView)
    requires
        schema.is_lively(),
        live_meets(PathSummaryView::summarize(p), PathSummaryView::summarize(q)),
    ensures
        PathSummaryView::summarize(PathTypeView::meet(schema, p, q)) == PathSummaryView::meet(
            schema,
            PathSummaryView::summarize(p),
            PathSummaryView::summarize(q),
        ),
{
    let a = PathSummaryView::summarize(p);
    let b = PathSummaryView::summarize(q);
    assert forall|x: Arm, y: Arm, r: DescriptorTypeView|
        #[trigger] a.reaches(x) && #[trigger] b.reaches(y) && #[trigger] schema.junction(
            x.last,
            y.first,
        ).contains(r) implies !r.is_empty() by {
        schema.lively_junction(x.last, y.first);
    }
    summarize_meet(schema, p, q);
}

/// Under a schema of closed records of firm properties summarizing commutes with
/// putting any shapes one after the other.
pub proof fn summarize_meet_closed(schema: SchemaView, p: PathTypeView, q: PathTypeView)
    requires
        schema.is_closed_firm(),
    ensures
        PathSummaryView::summarize(PathTypeView::meet(schema, p, q)) == PathSummaryView::meet(
            schema,
            PathSummaryView::summarize(p),
            PathSummaryView::summarize(q),
        ),
{
    let a = PathSummaryView::summarize(p);
    let b = PathSummaryView::summarize(q);
    assert forall|x: Arm, y: Arm, r: DescriptorTypeView|
        #[trigger] a.reaches(x) && #[trigger] b.reaches(y) && #[trigger] schema.junction(
            x.last,
            y.first,
        ).contains(r) implies !r.is_empty() by {
        schema.closed_firm_junction(x.last, y.first);
    }
    summarize_meet(schema, p, q);
}

proof fn summarize_meet_nodes(schema: SchemaView, d1: DescriptorTypeView, d2: DescriptorTypeView)
    requires
        live_junctions(
            schema,
            PathSummaryView::summarize(PathTypeView::Node(d1)),
            PathSummaryView::summarize(PathTypeView::Node(d2)),
        ),
    ensures
        PathSummaryView::summarize(
            PathTypeView::meet(schema, PathTypeView::Node(d1), PathTypeView::Node(d2)),
        ) == PathSummaryView::meet(
            schema,
            PathSummaryView::summarize(PathTypeView::Node(d1)),
            PathSummaryView::summarize(PathTypeView::Node(d2)),
        ),
{
    let a = PathSummaryView::summarize(PathTypeView::Node(d1));
    let b = PathSummaryView::summarize(PathTypeView::Node(d2));
    let t = PathTypeView::meet(schema, PathTypeView::Node(d1), PathTypeView::Node(d2));
    let s = PathSummaryView::summarize(t);
    let m = PathSummaryView::meet(schema, a, b);
    let js = schema.junction(d1, d2);
    summarize_valid(t);
    meet_reaches(schema, a, b);
    summarize_node_paths(js);
    schema.empty_junction(d1, d2);
    let x = Arm { first: d1, last: d1, len: 0 };
    let y = Arm { first: d2, last: d2, len: 0 };
    assert forall|z: Arm| #[trigger] s.reaches(z) == m.reaches(z) by {
        if s.reaches(z) {
            assert(js.contains(z.first));
            assert(a.reaches(x) && b.reaches(y));
            assert(schema.junction(x.last, y.first).contains(z.first));
            assert(z == joined_arm(x, y, z.first));
        }
        if m.reaches(z) {
            let (u, v, r) = choose|u: Arm, v: Arm, r: DescriptorTypeView|
                a.reaches(u) && b.reaches(v) && #[trigger] schema.junction(
                    u.last,
                    v.first,
                ).contains(r) && z == #[trigger] joined_arm(u, v, r);
            assert(u.len == 0 && v.len == 0);
            assert(js.contains(r));
            assert(!r.is_empty());
        }
    }
    same_reach(s, m);
}

proof fn summarize_meet_edge_node(
    schema: SchemaView,
    p1: PathTypeView,
    d1: DescriptorTypeView,
    d2: DescriptorTypeView,
)
    requires
        live_junctions(
            schema,
            PathSummaryView::summarize(PathTypeView::Edge(Box::new(p1), d1)),
            PathSummaryView::summarize(PathTypeView::Node(d2)),
        ),
    ensures
        PathSummaryView::summarize(
            PathTypeView::meet(
                schema,
                PathTypeView::Edge(Box::new(p1), d1),
                PathTypeView::Node(d2),
            ),
        ) == PathSummaryView::meet(
            schema,
            PathSummaryView::summarize(PathTypeView::Edge(Box::new(p1), d1)),
            PathSummaryView::summarize(PathTypeView::Node(d2)),
        ),
{
    let a = PathSummaryView::summarize(PathTypeView::Edge(Box::new(p1), d1));
    let b = PathSummaryView::summarize(PathTypeView::Node(d2));
    let t = PathTypeView::meet(
        schema,
        PathTypeView::Edge(Box::new(p1), d1),
        PathTypeView::Node(d2),
    );
    let s = PathSummaryView::summarize(t);
    let m = PathSummaryView::meet(schema, a, b);
    let inner = PathSummaryView::summarize(p1);
    let js = schema.junction(d1, d2);
    summarize_valid(t);
    meet_reaches(schema, a, b);
    extended_reaches(inner, d1);
    summarize_edge_paths(p1, js);
    schema.empty_junction(d1, d2);
    let y = Arm { first: d2, last: d2, len: 0 };
    assert forall|z: Arm| #[trigger] s.reaches(z) == m.reaches(z) by {
        if s.reaches(z) {
            assert(js.contains(z.last));
            assert(!d1.is_empty() && !d2.is_empty());
            let w = choose|w: Arm| #[trigger]
                inner.reaches(w) && w.first == z.first && w.len < z.len;
            let x = Arm { first: z.first, last: d1, len: z.len };
            assert(inner.reaches(w) && w.first == x.first && w.len < x.len);
            assert(a.reaches(x));
            assert(b.reaches(y));
            assert(schema.junction(x.last, y.first).contains(z.last));
            assert(z == joined_arm(x, y, z.last));
        }
        if m.reaches(z) {
            let (u, v, r) = choose|u: Arm, v: Arm, r: DescriptorTypeView|
                a.reaches(u) && b.reaches(v) && #[trigger] schema.junction(
                    u.last,
                    v.first,
                ).contains(r) && z == #[trigger] joined_arm(u, v, r);
            assert(v.len == 0);
            assert(u.last == d1);
            assert(js.contains(r));
            assert(!r.is_empty());
            let w = choose|w: Arm| #[trigger]
                inner.reaches(w) && w.first == u.first && w.len < u.len;
            assert(inner.reaches(w) && w.first == z.first && w.len < z.len);
        }
    }
    same_reach(s, m);
}

/// Some node in the list is `d`.
spec fn has_node(ns: Seq<DescriptorType>, d: DescriptorTypeView) -> bool {
    exists|i: int| 0 <= i < ns.len() && (#[trigger] ns[i])@ == d
}

/// Some pair in the list has these ends and at most `n` edges.
spec fn has_pair(
    ps: Seq<(DescriptorType, DescriptorType, usize)>,
    f: DescriptorTypeView,
    l: DescriptorTypeView,
    n: nat,
) -> bool {
    exists|i: int| 0 <= i < ps.len() && (#[trigger] ps[i]).0@ == f && ps[i].1@ == l && ps[i].2 <= n
}

/// The alternatives that the lists stand for.
spec fn listed(
    ns: Seq<DescriptorType>,
    ps: Seq<(DescriptorType, DescriptorType, usize)>,
    z: Arm,
) -> bool {
    if z.len == 0 {
        z.first == z.last && has_node(ns, z.first)
    } else {
        has_pair(ps, z.first, z.last, z.len)
    }
}

/// Pairs have at least one edge, and no two have the same ends.
spec fn distinct_pairs(ps: Seq<(DescriptorType, DescriptorType, usize)>) -> bool {
    &&& forall|i: int| 0 <= i < ps.len() ==> (#[trigger] ps[i]).2 >= 1
    &&& forall|i: int, j: int|
        0 <= i < j < ps.len() ==> !((#[trigger] ps[i]).0@ == (#[trigger] ps[j]).0@ && ps[i].1@
            == ps[j].1@)
}

/// The summary that the lists stand for.
spec fn listed_view(
    ns: Seq<DescriptorType>,
    ps: Seq<(DescriptorType, DescriptorType, usize)>,
) -> PathSummaryView {
    PathSummaryView::of(|z: Arm| listed(ns, ps, z))
}

/// A summary reaches what its lists stand for.
proof fn listed_reaches(
    ns: Seq<DescriptorType>,
    ps: Seq<(DescriptorType, DescriptorType, usize)>,
)
    ensures
        listed_view(ns, ps).valid(),
        forall|z: Arm| #[trigger] listed_view(ns, ps).reaches(z) == listed(ns, ps, z),
{
    let p = |z: Arm| listed(ns, ps, z);
    assert forall|z: Arm, w: Arm|
        #[trigger] p(z) && z.len > 0 && w.first == z.first && w.last == z.last && w.len
            >= z.len implies #[trigger] p(w) by {
        let i = choose|i: int|
            0 <= i < ps.len() && (#[trigger] ps[i]).0@ == z.first && ps[i].1@ == z.last && ps[i].2
                <= z.len;
        assert(ps[i].2 <= w.len);
        assert(has_pair(ps, w.first, w.last, w.len));
    }
    of_reaches(p);
    assert forall|z: Arm| #[trigger] listed_view(ns, ps).reaches(z) == listed(ns, ps, z) by {
        assert(PathSummaryView::of(p).reaches(z) == p(z));
    }
}

/// The summary holds each listed pair with its own number of edges.
proof fn listed_pair(
    ns: Seq<DescriptorType>,
    ps: Seq<(DescriptorType, DescriptorType, usize)>,
    i: int,
)
    requires
        distinct_pairs(ps),
        0 <= i < ps.len(),
    ensures
        listed_view(ns, ps).pairs.contains_key((ps[i].0@, ps[i].1@)),
        listed_view(ns, ps).pairs[(ps[i].0@, ps[i].1@)] == ps[i].2,
{
    let v = listed_view(ns, ps);
    listed_reaches(ns, ps);
    let n = ps[i].2 as nat;
    let z = Arm { first: ps[i].0@, last: ps[i].1@, len: n };
    assert(has_pair(ps, z.first, z.last, n));
    assert(v.reaches(z));
    let k = (ps[i].0@, ps[i].1@);
    let w = Arm { first: ps[i].0@, last: ps[i].1@, len: v.pairs[k] };
    assert(v.reaches(w));
    let j = choose|j: int|
        0 <= j < ps.len() && (#[trigger] ps[j]).0@ == w.first && ps[j].1@ == w.last && ps[j].2
            <= w.len;
    assert(i == j);
}

/// Each pair of the summary is listed.
proof fn pair_listed(
    ns: Seq<DescriptorType>,
    ps: Seq<(DescriptorType, DescriptorType, usize)>,
    k: (DescriptorTypeView, DescriptorTypeView),
) -> (i: int)
    requires
        distinct_pairs(ps),
        listed_view(ns, ps).pairs.contains_key(k),
    ensures
        0 <= i < ps.len(),
        k == (ps[i].0@, ps[i].1@),
        listed_view(ns, ps).pairs[k] == ps[i].2,
{
    let v = listed_view(ns, ps);
    listed_reaches(ns, ps);
    let w = Arm { first: k.0, last: k.1, len: v.pairs[k] };
    assert((k.0, k.1) == k);
    assert(v.reaches(w));
    let i = choose|i: int|
        0 <= i < ps.len() && (#[trigger] ps[i]).0@ == w.first && ps[i].1@ == w.last && ps[i].2
            <= w.len;
    listed_pair(ns, ps, i);
    i
}

/// No node is listed exactly where the summary has none; likewise for pairs.
proof fn listed_empty(
    ns: Seq<DescriptorType>,
    ps: Seq<(DescriptorType, DescriptorType, usize)>,
)
    requires
        distinct_pairs(ps),
    ensures
        (ns.len() == 0) == (listed_view(ns, ps).nodes == Set::<DescriptorTypeView>::empty()),
        (ps.len() == 0) == (listed_view(ns, ps).pairs == Map::<
            (DescriptorTypeView, DescriptorTypeView),
            nat,
        >::empty()),
{
    let v = listed_view(ns, ps);
    listed_reaches(ns, ps);
    if ns.len() > 0 {
        let z = Arm { first: ns[0]@, last: ns[0]@, len: 0 };
        assert(has_node(ns, z.first));
        assert(v.reaches(z));
        assert(v.nodes.contains(z.first));
    } else {
        assert forall|d: DescriptorTypeView| !v.nodes.contains(d) by {
            let z = Arm { first: d, last: d, len: 0 };
            assert(v.reaches(z) == listed(ns, ps, z));
        }
        assert(v.nodes =~= Set::<DescriptorTypeView>::empty());
    }
    if ps.len() > 0 {
        listed_pair(ns, ps, 0);
    } else {
        assert forall|k: (DescriptorTypeView, DescriptorTypeView)| !v.pairs.contains_key(k) by {
            if v.pairs.contains_key(k) {
                let i = pair_listed(ns, ps, k);
            }
        }
        assert(v.pairs =~= Map::<(DescriptorTypeView, DescriptorTypeView), nat>::empty());
    }
}

/// Adds a single node.
fn insert_node(nodes: &mut Vec<DescriptorType>, d: DescriptorType)
    ensures
        forall|e: DescriptorTypeView| #[trigger]
            has_node(final(nodes)@, e) == (has_node(old(nodes)@, e) || e == d@),
{
    let ghost before = nodes@;
    let mut i: usize = 0;
    while i < nodes.len()
        invariant
            i <= nodes.len(),
            nodes@ == before,
        decreases nodes.len() - i,
    {
        if nodes[i].same(&d) {
            assert(has_node(before, d@));
            return;
        }
        i = i + 1;
    }
    nodes.push(d);
    proof {
        assert forall|e: DescriptorTypeView| #[trigger]
            has_node(nodes@, e) == (has_node(before, e) || e == d@) by {
            if has_node(before, e) {
                let j = choose|j: int| 0 <= j < before.len() && (#[trigger] before[j])@ == e;
                assert(nodes@[j]@ == e);
            }
            if e == d@ {
                assert(nodes@[before.len() as int]@ == e);
            }
            if has_node(nodes@, e) && e != d@ {
                let j = choose|j: int| 0 <= j < nodes@.len() && (#[trigger] nodes@[j])@ == e;
                assert(before[j]@ == e);
            }
        }
    }
}

/// Adds an alternative with edges, keeping the least number for its ends.
fn insert_pair(
    pairs: &mut Vec<(DescriptorType, DescriptorType, usize)>,
    f: DescriptorType,
    l: DescriptorType,
    len: usize,
)
    requires
        len >= 1,
        distinct_pairs(old(pairs)@),
    ensures
        distinct_pairs(final(pairs)@),
        forall|a: DescriptorTypeView, b: DescriptorTypeView, n: nat| #[trigger]
            has_pair(final(pairs)@, a, b, n) == (has_pair(old(pairs)@, a, b, n) || (a == f@ && b
                == l@ && n >= len)),
{
    let ghost before = pairs@;
    let mut i: usize = 0;
    while i < pairs.len()
        invariant
            i <= pairs.len(),
            pairs@ == before,
            before == old(pairs)@,
            distinct_pairs(before),
            len >= 1,
            forall|j: int|
                0 <= j < i ==> !((#[trigger] before[j]).0@ == f@ && before[j].1@ == l@),
        decreases pairs.len() - i,
    {
        if pairs[i].0.same(&f) && pairs[i].1.same(&l) {
            if len < pairs[i].2 {
                pairs.set(i, (f, l, len));
            }
            proof {
                pair_updated(before, pairs@, i as int, f@, l@, len);
            }
            return;
        }
        i = i + 1;
    }
    pairs.push((f, l, len));
    proof {
        pair_pushed(before, pairs@, f@, l@, len);
    }
}

proof fn pair_updated(
    before: Seq<(DescriptorType, DescriptorType, usize)>,
    after: Seq<(DescriptorType, DescriptorType, usize)>,
    i: int,
    f: DescriptorTypeView,
    l: DescriptorTypeView,
    len: usize,
)
    requires
        0 <= i < before.len(),
        after.len() == before.len(),
        before[i].0@ == f,
        before[i].1@ == l,
        after[i].0@ == f,
        after[i].1@ == l,
        after[i].2 == if len < before[i].2 {
            len
        } else {
            before[i].2
        },
        forall|j: int| 0 <= j < before.len() && j != i ==> #[trigger] after[j] == before[j],
    ensures
        forall|a: DescriptorTypeView, b: DescriptorTypeView, n: nat| #[trigger]
            has_pair(after, a, b, n) == (has_pair(before, a, b, n) || (a == f && b == l && n
                >= len)),
{
    assert forall|a: DescriptorTypeView, b: DescriptorTypeView, n: nat| #[trigger]
        has_pair(after, a, b, n) == (has_pair(before, a, b, n) || (a == f && b == l && n
            >= len)) by {
        if has_pair(before, a, b, n) {
            let j = choose|j: int|
                0 <= j < before.len() && (#[trigger] before[j]).0@ == a && before[j].1@ == b
                    && before[j].2 <= n;
            assert(after[j].0@ == a && after[j].1@ == b && after[j].2 <= n);
        }
        if a == f && b == l && n >= len {
            assert(after[i].0@ == a && after[i].1@ == b && after[i].2 <= n);
        }
        if has_pair(after, a, b, n) {
            let j = choose|j: int|
                0 <= j < after.len() && (#[trigger] after[j]).0@ == a && after[j].1@ == b
                    && after[j].2 <= n;
            assert(before[j].0@ == a && before[j].1@ == b);
        }
    }
}

proof fn pair_pushed(
    before: Seq<(DescriptorType, DescriptorType, usize)>,
    after: Seq<(DescriptorType, DescriptorType, usize)>,
    f: DescriptorTypeView,
    l: DescriptorTypeView,
    len: usize,
)
    requires
        after.len() == before.len() + 1,
        after.last().0@ == f,
        after.last().1@ == l,
        after.last().2 == len,
        forall|j: int| 0 <= j < before.len() ==> #[trigger] after[j] == before[j],
    ensures
        forall|a: DescriptorTypeView, b: DescriptorTypeView, n: nat| #[trigger]
            has_pair(after, a, b, n) == (has_pair(before, a, b, n) || (a == f && b == l && n
                >= len)),
{
    assert forall|a: DescriptorTypeView, b: DescriptorTypeView, n: nat| #[trigger]
        has_pair(after, a, b, n) == (has_pair(before, a, b, n) || (a == f && b == l && n
            >= len)) by {
        if has_pair(before, a, b, n) {
            let j = choose|j: int|
                0 <= j < before.len() && (#[trigger] before[j]).0@ == a && before[j].1@ == b
                    && before[j].2 <= n;
            assert(after[j].0@ == a && after[j].1@ == b && after[j].2 <= n);
        }
        if a == f && b == l && n >= len {
            let j = before.len() as int;
            assert(after[j].0@ == a && after[j].1@ == b && after[j].2 <= n);
        }
        if has_pair(after, a, b, n) {
            let j = choose|j: int|
                0 <= j < after.len() && (#[trigger] after[j]).0@ == a && after[j].1@ == b
                    && after[j].2 <= n;
            if j < before.len() {
                assert(before[j].0@ == a && before[j].1@ == b && before[j].2 <= n);
            }
        }
    }
}

/// Copies a list of descriptors.
fn clone_nodes(nodes: &Vec<DescriptorType>) -> (r: Vec<DescriptorType>)
    ensures
        r@.len() == nodes@.len(),
        forall|i: int| 0 <= i < r@.len() ==> (#[trigger] r@[i])@ == nodes@[i]@,
{
    let mut out: Vec<DescriptorType> = Vec::new();
    let mut i: usize = 0;
    while i < nodes.len()
        invariant
            i <= nodes.len(),
            out@.len() == i,
            forall|j: int| 0 <= j < i ==> (#[trigger] out@[j])@ == nodes@[j]@,
        decreases nodes.len() - i,
    {
        out.push(nodes[i].clone());
        i = i + 1;
    }
    out
}

/// Copies a list of pairs.
fn clone_pairs(pairs: &Vec<(DescriptorType, DescriptorType, usize)>) -> (r: Vec<
    (DescriptorType, DescriptorType, usize),
>)
    ensures
        r@.len() == pairs@.len(),
        forall|i: int|
            0 <= i < r@.len() ==> (#[trigger] r@[i]).0@ == pairs@[i].0@ && r@[i].1@ == pairs@[i].1@
                && r@[i].2 == pairs@[i].2,
{
    let mut out: Vec<(DescriptorType, DescriptorType, usize)> = Vec::new();
    let mut i: usize = 0;
    while i < pairs.len()
        invariant
            i <= pairs.len(),
            out@.len() == i,
            forall|j: int|
                0 <= j < i ==> (#[trigger] out@[j]).0@ == pairs@[j].0@ && out@[j].1@
                    == pairs@[j].1@ && out@[j].2 == pairs@[j].2,
        decreases pairs.len() - i,
    {
        out.push((pairs[i].0.clone(), pairs[i].1.clone(), pairs[i].2));
        i = i + 1;
    }
    out
}

/// Lists with the same values stand for the same summary.
proof fn same_lists(
    ns: Seq<DescriptorType>,
    ps: Seq<(DescriptorType, DescriptorType, usize)>,
    ms: Seq<DescriptorType>,
    qs: Seq<(DescriptorType, DescriptorType, usize)>,
)
    requires
        ns.len() == ms.len(),
        ps.len() == qs.len(),
        forall|i: int| 0 <= i < ns.len() ==> (#[trigger] ms[i])@ == ns[i]@,
        forall|i: int|
            0 <= i < ps.len() ==> (#[trigger] qs[i]).0@ == ps[i].0@ && qs[i].1@ == ps[i].1@
                && qs[i].2 == ps[i].2,
    ensures
        listed_view(ns, ps) == listed_view(ms, qs),
{
    listed_reaches(ns, ps);
    listed_reaches(ms, qs);
    assert forall|z: Arm| #[trigger]
        listed_view(ns, ps).reaches(z) == listed_view(ms, qs).reaches(z) by {
        assert(listed(ns, ps, z) == listed(ms, qs, z)) by {
            if has_node(ns, z.first) {
                let i = choose|i: int| 0 <= i < ns.len() && (#[trigger] ns[i])@ == z.first;
                assert(ms[i]@ == z.first);
            }
            if has_node(ms, z.first) {
                let i = choose|i: int| 0 <= i < ms.len() && (#[trigger] ms[i])@ == z.first;
                assert(ns[i]@ == z.first);
            }
            if has_pair(ps, z.first, z.last, z.len) {
                let i = choose|i: int|
                    0 <= i < ps.len() && (#[trigger] ps[i]).0@ == z.first && ps[i].1@ == z.last
                        && ps[i].2 <= z.len;
                assert(qs[i].0@ == z.first);
            }
            if has_pair(qs, z.first, z.last, z.len) {
                let i = choose|i: int|
                    0 <= i < qs.len() && (#[trigger] qs[i]).0@ == z.first && qs[i].1@ == z.last
                        && qs[i].2 <= z.len;
                assert(ps[i].0@ == z.first);
            }
        }
    }
    same_reach(listed_view(ns, ps), listed_view(ms, qs));
}

/// `z` is an alternative of `w`'s ends with at least as many edges.
pub open spec fn covers(w: Arm, z: Arm) -> bool {
    if w.len == 0 {
        z == w
    } else {
        z.first == w.first && z.last == w.last && z.len >= w.len
    }
}

/// `z` comes from joining `x` and `y`.
pub open spec fn joins(schema: SchemaView, x: Arm, y: Arm, z: Arm) -> bool {
    exists|r: DescriptorTypeView| #[trigger]
        schema.junction(x.last, y.first).contains(r) && covers(joined_arm(x, y, r), z)
}

/// `x` is one of the listed alternatives, with its own number of edges.
spec fn is_entry(
    ns: Seq<DescriptorType>,
    ps: Seq<(DescriptorType, DescriptorType, usize)>,
    x: Arm,
) -> bool {
    ||| x.len == 0 && x.first == x.last && has_node(ns, x.first)
    ||| exists|i: int|
        0 <= i < ps.len() && x == #[trigger] pair_arm(ps[i])
}

/// The alternative that a pair stands for.
spec fn pair_arm(p: (DescriptorType, DescriptorType, usize)) -> Arm {
    Arm { first: p.0@, last: p.1@, len: p.2 as nat }
}

/// The alternative that a node stands for.
spec fn node_arm(d: DescriptorType) -> Arm {
    Arm { first: d@, last: d@, len: 0 }
}

/// Composition is joining the listed alternatives.
proof fn entries_compose(
    schema: SchemaView,
    ns: Seq<DescriptorType>,
    ps: Seq<(DescriptorType, DescriptorType, usize)>,
    ms: Seq<DescriptorType>,
    qs: Seq<(DescriptorType, DescriptorType, usize)>,
    z: Arm,
)
    requires
        distinct_pairs(ps),
        distinct_pairs(qs),
    ensures
        PathSummaryView::composes(schema, listed_view(ns, ps), listed_view(ms, qs), z) == exists|
            x: Arm,
            y: Arm,
        |
            is_entry(ns, ps, x) && is_entry(ms, qs, y) && #[trigger] joins(schema, x, y, z),
{
    let a = listed_view(ns, ps);
    let b = listed_view(ms, qs);
    listed_reaches(ns, ps);
    listed_reaches(ms, qs);
    if PathSummaryView::composes(schema, a, b, z) {
        let (x, y, r) = choose|x: Arm, y: Arm, r: DescriptorTypeView|
            a.reaches(x) && b.reaches(y) && #[trigger] schema.junction(x.last, y.first).contains(
                r,
            ) && z == #[trigger] joined_arm(x, y, r);
        let u = entry_of(ns, ps, x);
        let v = entry_of(ms, qs, y);
        assert(covers(joined_arm(u, v, r), z));
        assert(schema.junction(u.last, v.first).contains(r));
        assert(joins(schema, u, v, z));
    }
    if exists|x: Arm, y: Arm|
        is_entry(ns, ps, x) && is_entry(ms, qs, y) && #[trigger] joins(schema, x, y, z) {
        let (x, y) = choose|x: Arm, y: Arm|
            is_entry(ns, ps, x) && is_entry(ms, qs, y) && #[trigger] joins(schema, x, y, z);
        let r = choose|r: DescriptorTypeView| #[trigger]
            schema.junction(x.last, y.first).contains(r) && covers(joined_arm(x, y, r), z);
        entry_reached(ns, ps, x);
        entry_reached(ms, qs, y);
        let more = (z.len - x.len - y.len) as nat;
        if x.len > 0 {
            let x2 = Arm { first: x.first, last: x.last, len: x.len + more };
            reach_closed(a, x, x2);
            assert(schema.junction(x2.last, y.first).contains(r));
            assert(z == joined_arm(x2, y, r));
        } else if y.len > 0 {
            let y2 = Arm { first: y.first, last: y.last, len: y.len + more };
            reach_closed(b, y, y2);
            assert(schema.junction(x.last, y2.first).contains(r));
            assert(z == joined_arm(x, y2, r));
        } else {
            assert(z == joined_arm(x, y, r));
        }
    }
}

/// What is reached covers a listed alternative with the same ends.
proof fn entry_of(
    ns: Seq<DescriptorType>,
    ps: Seq<(DescriptorType, DescriptorType, usize)>,
    x: Arm,
) -> (u: Arm)
    requires
        distinct_pairs(ps),
        listed_view(ns, ps).reaches(x),
    ensures
        is_entry(ns, ps, u),
        covers(u, x),
        u.first == x.first,
        u.last == x.last,
        u.len == 0 <==> x.len == 0,
{
    listed_reaches(ns, ps);
    assert(listed(ns, ps, x));
    if x.len == 0 {
        x
    } else {
        let i = choose|i: int|
            0 <= i < ps.len() && (#[trigger] ps[i]).0@ == x.first && ps[i].1@ == x.last
                && ps[i].2 <= x.len;
        let u = pair_arm(ps[i]);
        assert(is_entry(ns, ps, u));
        u
    }
}

/// A listed alternative is reached.
proof fn entry_reached(
    ns: Seq<DescriptorType>,
    ps: Seq<(DescriptorType, DescriptorType, usize)>,
    x: Arm,
)
    requires
        distinct_pairs(ps),
        is_entry(ns, ps, x),
    ensures
        listed_view(ns, ps).reaches(x),
{
    listed_reaches(ns, ps);
    if !(x.len == 0 && x.first == x.last && has_node(ns, x.first)) {
        let i = choose|i: int| 0 <= i < ps.len() && x == #[trigger] pair_arm(ps[i]);
        assert(ps[i].2 >= 1);
        assert(ps[i].0@ == x.first && ps[i].1@ == x.last && ps[i].2 <= x.len);
        assert(has_pair(ps, x.first, x.last, x.len));
    }
    assert(listed(ns, ps, x));
}

/// Adds the alternatives that join `x` and `y`.
fn add_junction(
    schema: &Schema,
    x_first: &DescriptorType,
    x_last: &DescriptorType,
    x_len: usize,
    y_first: &DescriptorType,
    y_last: &DescriptorType,
    y_len: usize,
    nodes: &mut Vec<DescriptorType>,
    pairs: &mut Vec<(DescriptorType, DescriptorType, usize)>,
)
    requires
        x_len + y_len <= usize::MAX,
        distinct_pairs(old(pairs)@),
    ensures
        distinct_pairs(final(pairs)@),
        forall|z: Arm| #[trigger]
            listed(final(nodes)@, final(pairs)@, z) == (listed(old(nodes)@, old(pairs)@, z)
                || joins(
                schema@,
                (Arm { first: x_first@, last: x_last@, len: x_len as nat }),
                (Arm { first: y_first@, last: y_last@, len: y_len as nat }),
                z,
            )),
{
    let ghost x = Arm { first: x_first@, last: x_last@, len: x_len as nat };
    let ghost y = Arm { first: y_first@, last: y_last@, len: y_len as nat };
    let ghost js = schema@.junction(x_last@, y_first@);
    let rs = junction_nodes(schema, x_last, y_first);
    let len: usize = x_len + y_len;
    let ghost ns = nodes@;
    let ghost ps = pairs@;
    let mut i: usize = 0;
    while i < rs.len()
        invariant
            i <= rs.len(),
            rs@.len() == js.len(),
            forall|j: int| 0 <= j < rs@.len() ==> (#[trigger] rs@[j])@ == js[j],
            x == (Arm { first: x_first@, last: x_last@, len: x_len as nat }),
            y == (Arm { first: y_first@, last: y_last@, len: y_len as nat }),
            len == x_len + y_len,
            distinct_pairs(pairs@),
            forall|z: Arm| #[trigger]
                listed(nodes@, pairs@, z) == (listed(ns, ps, z) || exists|j: int|
                    0 <= j < i && covers(joined_arm(x, y, #[trigger] js[j]), z)),
        decreases rs.len() - i,
    {
        let r = rs[i].clone();
        let ghost w = joined_arm(x, y, r@);
        let ghost ns1 = nodes@;
        let ghost ps1 = pairs@;
        if len == 0 {
            insert_node(nodes, r);
        } else {
            let first = if x_len == 0 {
                rs[i].clone()
            } else {
                x_first.clone()
            };
            let last = if y_len == 0 {
                r
            } else {
                y_last.clone()
            };
            insert_pair(pairs, first, last, len);
        }
        proof {
            assert(w == joined_arm(x, y, js[i as int]));
            assert forall|z: Arm| #[trigger]
                listed(nodes@, pairs@, z) == (listed(ns1, ps1, z) || covers(w, z)) by {}
            assert forall|z: Arm| #[trigger]
                listed(nodes@, pairs@, z) == (listed(ns, ps, z) || exists|j: int|
                    0 <= j < i + 1 && covers(joined_arm(x, y, #[trigger] js[j]), z)) by {
                assert(listed(ns1, ps1, z) == (listed(ns, ps, z) || exists|j: int|
                    0 <= j < i && covers(joined_arm(x, y, #[trigger] js[j]), z)));
                if covers(w, z) {
                    assert(covers(joined_arm(x, y, js[i as int]), z));
                }
            }
        }
        i = i + 1;
    }
    proof {
        assert forall|z: Arm| #[trigger]
            listed(nodes@, pairs@, z) == (listed(ns, ps, z) || joins(schema@, x, y, z)) by {
            if joins(schema@, x, y, z) {
                let r = choose|r: DescriptorTypeView| #[trigger]
                    schema@.junction(x.last, y.first).contains(r) && covers(
                        joined_arm(x, y, r),
                        z,
                    );
                let j = choose|j: int| 0 <= j < js.len() && js[j] == r;
                assert(covers(joined_arm(x, y, js[j]), z));
            }
            if exists|j: int| 0 <= j < i && covers(joined_arm(x, y, #[trigger] js[j]), z) {
                let j = choose|j: int| 0 <= j < i && covers(joined_arm(x, y, #[trigger] js[j]), z);
                assert(js.contains(js[j]));
            }
        }
    }
}

/// The numbers of edges of two lists of pairs can be added.
spec fn sums_fit(
    n: nat,
    qs: Seq<(DescriptorType, DescriptorType, usize)>,
) -> bool {
    n <= usize::MAX && forall|j: int|
        0 <= j < qs.len() ==> n + (#[trigger] qs[j]).2 <= usize::MAX
}

/// `z` comes from joining `x` with a listed alternative.
spec fn row(
    schema: SchemaView,
    x: Arm,
    ms: Seq<DescriptorType>,
    qs: Seq<(DescriptorType, DescriptorType, usize)>,
    z: Arm,
) -> bool {
    exists|y: Arm| is_entry(ms, qs, y) && #[trigger] joins(schema, x, y, z)
}

/// Adds the alternatives that join `x` with one of `b`.
fn add_row(
    schema: &Schema,
    x_first: &DescriptorType,
    x_last: &DescriptorType,
    x_len: usize,
    b: &PathSummary,
    nodes: &mut Vec<DescriptorType>,
    pairs: &mut Vec<(DescriptorType, DescriptorType, usize)>,
)
    requires
        sums_fit(x_len as nat, b.pairs@),
        distinct_pairs(old(pairs)@),
    ensures
        distinct_pairs(final(pairs)@),
        forall|z: Arm| #[trigger]
            listed(final(nodes)@, final(pairs)@, z) == (listed(old(nodes)@, old(pairs)@, z) || row(
                schema@,
                (Arm { first: x_first@, last: x_last@, len: x_len as nat }),
                b.nodes@,
                b.pairs@,
                z,
            )),
{
    let ghost x = Arm { first: x_first@, last: x_last@, len: x_len as nat };
    let ghost ns = nodes@;
    let ghost ps = pairs@;
    let mut i: usize = 0;
    while i < b.pairs.len()
        invariant
            i <= b.pairs.len(),
            x == (Arm { first: x_first@, last: x_last@, len: x_len as nat }),
            sums_fit(x_len as nat, b.pairs@),
            distinct_pairs(pairs@),
            forall|z: Arm| #[trigger]
                listed(nodes@, pairs@, z) == (listed(ns, ps, z) || exists|j: int|
                    0 <= j < i && #[trigger] joins(schema@, x, pair_arm(b.pairs@[j]), z)),
        decreases b.pairs.len() - i,
    {
        let ghost ns1 = nodes@;
        let ghost ps1 = pairs@;
        let y = &b.pairs[i];
        assert(x_len + b.pairs@[i as int].2 <= usize::MAX);
        add_junction(schema, x_first, x_last, x_len, &y.0, &y.1, y.2, nodes, pairs);
        proof {
            assert forall|z: Arm| #[trigger]
                listed(nodes@, pairs@, z) == (listed(ns, ps, z) || exists|j: int|
                    0 <= j < i + 1 && #[trigger] joins(schema@, x, pair_arm(b.pairs@[j]), z)) by {
                assert(listed(nodes@, pairs@, z) == (listed(ns1, ps1, z) || joins(
                    schema@,
                    x,
                    pair_arm(b.pairs@[i as int]),
                    z,
                )));
                assert(listed(ns1, ps1, z) == (listed(ns, ps, z) || exists|j: int|
                    0 <= j < i && #[trigger] joins(schema@, x, pair_arm(b.pairs@[j]), z)));
            }
        }
        i = i + 1;
    }
    let ghost ns2 = nodes@;
    let ghost ps2 = pairs@;
    let mut k: usize = 0;
    while k < b.nodes.len()
        invariant
            k <= b.nodes.len(),
            x == (Arm { first: x_first@, last: x_last@, len: x_len as nat }),
            x_len <= usize::MAX,
            distinct_pairs(pairs@),
            forall|z: Arm| #[trigger]
                listed(nodes@, pairs@, z) == (listed(ns2, ps2, z) || exists|j: int|
                    0 <= j < k && #[trigger] joins(schema@, x, node_arm(b.nodes@[j]), z)),
        decreases b.nodes.len() - k,
    {
        let ghost ns1 = nodes@;
        let ghost ps1 = pairs@;
        let d = &b.nodes[k];
        add_junction(schema, x_first, x_last, x_len, d, d, 0, nodes, pairs);
        proof {
            assert forall|z: Arm| #[trigger]
                listed(nodes@, pairs@, z) == (listed(ns2, ps2, z) || exists|j: int|
                    0 <= j < k + 1 && #[trigger] joins(schema@, x, node_arm(b.nodes@[j]), z)) by {
                assert(listed(nodes@, pairs@, z) == (listed(ns1, ps1, z) || joins(
                    schema@,
                    x,
                    node_arm(b.nodes@[k as int]),
                    z,
                )));
                assert(listed(ns1, ps1, z) == (listed(ns2, ps2, z) || exists|j: int|
                    0 <= j < k && #[trigger] joins(schema@, x, node_arm(b.nodes@[j]), z)));
            }
        }
        k = k + 1;
    }
    proof {
        assert forall|z: Arm| #[trigger]
            listed(nodes@, pairs@, z) == (listed(ns, ps, z) || row(
                schema@,
                x,
                b.nodes@,
                b.pairs@,
                z,
            )) by {
            assert(listed(ns2, ps2, z) == (listed(ns, ps, z) || exists|j: int|
                0 <= j < i && #[trigger] joins(schema@, x, pair_arm(b.pairs@[j]), z)));
            if row(schema@, x, b.nodes@, b.pairs@, z) {
                let y = choose|y: Arm|
                    is_entry(b.nodes@, b.pairs@, y) && #[trigger] joins(schema@, x, y, z);
                if y.len == 0 && y.first == y.last && has_node(b.nodes@, y.first) {
                    let j = choose|j: int|
                        0 <= j < b.nodes@.len() && (#[trigger] b.nodes@[j])@ == y.first;
                    assert(y == node_arm(b.nodes@[j]));
                } else {
                    let j = choose|j: int|
                        0 <= j < b.pairs@.len() && y == #[trigger] pair_arm(b.pairs@[j]);
                    assert(joins(schema@, x, pair_arm(b.pairs@[j]), z));
                }
            }
            if exists|j: int|
                0 <= j < i && #[trigger] joins(schema@, x, pair_arm(b.pairs@[j]), z) {
                let j = choose|j: int|
                    0 <= j < i && #[trigger] joins(schema@, x, pair_arm(b.pairs@[j]), z);
                assert(is_entry(b.nodes@, b.pairs@, pair_arm(b.pairs@[j])));
            }
            if exists|j: int|
                0 <= j < k && #[trigger] joins(schema@, x, node_arm(b.nodes@[j]), z) {
                let j = choose|j: int|
                    0 <= j < k && #[trigger] joins(schema@, x, node_arm(b.nodes@[j]), z);
                assert(has_node(b.nodes@, b.nodes@[j]@));
                assert(is_entry(b.nodes@, b.pairs@, node_arm(b.nodes@[j])));
            }
        }
    }
}

/// No pair has more than `m` edges.
pub open spec fn bounded(s: PathSummaryView, m: nat) -> bool {
    forall|k: (DescriptorTypeView, DescriptorTypeView)| #[trigger]
        s.pairs.contains_key(k) ==> s.pairs[k] <= m
}

/// What is reached is reached within the bound.
proof fn reached_within(s: PathSummaryView, m: nat, x: Arm) -> (u: Arm)
    requires
        s.valid(),
        bounded(s, m),
        s.reaches(x),
    ensures
        s.reaches(u),
        u.first == x.first,
        u.last == x.last,
        u.len <= m,
        u.len == 0 <==> x.len == 0,
{
    if x.len == 0 {
        x
    } else {
        let k = (x.first, x.last);
        assert(s.pairs.contains_key(k));
        Arm { first: x.first, last: x.last, len: s.pairs[k] }
    }
}

/// Composition adds the bounds.
pub proof fn meet_bounded(
    schema: SchemaView,
    a: PathSummaryView,
    m: nat,
    b: PathSummaryView,
    n: nat,
)
    requires
        a.valid(),
        b.valid(),
        bounded(a, m),
        bounded(b, n),
    ensures
        bounded(PathSummaryView::meet(schema, a, b), m + n),
{
    let s = PathSummaryView::meet(schema, a, b);
    meet_reaches(schema, a, b);
    assert forall|k: (DescriptorTypeView, DescriptorTypeView)| #[trigger]
        s.pairs.contains_key(k) implies s.pairs[k] <= m + n by {
        assert((k.0, k.1) == k);
        let z = Arm { first: k.0, last: k.1, len: s.pairs[k] };
        assert(s.reaches(z));
        let (x, y, r) = choose|x: Arm, y: Arm, r: DescriptorTypeView|
            a.reaches(x) && b.reaches(y) && #[trigger] schema.junction(x.last, y.first).contains(
                r,
            ) && z == #[trigger] joined_arm(x, y, r);
        let u = reached_within(a, m, x);
        let v = reached_within(b, n, y);
        let w = joined_arm(u, v, r);
        assert(schema.junction(u.last, v.first).contains(r));
        assert(PathSummaryView::composes(schema, a, b, w));
        assert(s.reaches(w));
    }
}

/// Repeating multiplies the bound.
proof fn pow_bounded(schema: SchemaView, p: PathSummaryView, m: nat, n: nat)
    requires
        p.valid(),
        bounded(p, m),
    ensures
        PathSummaryView::pow(schema, p, n).valid(),
        bounded(PathSummaryView::pow(schema, p, n), n * m),
    decreases n,
{
    if n == 1 {
        assert(n * m == m) by (nonlinear_arith)
            requires
                n == 1,
        ;
    } else if n > 1 {
        let k = (n - 1) as nat;
        pow_bounded(schema, p, m, k);
        meet_reaches(schema, p, PathSummaryView::pow(schema, p, k));
        meet_bounded(schema, p, m, PathSummaryView::pow(schema, p, k), k * m);
        assert(n * m == m + k * m) by (nonlinear_arith)
            requires
                n == k + 1,
        ;
    }
}

/// The summary has no more edges than the longest alternative.
proof fn summarize_bounded(p: PathTypeView)
    ensures
        bounded(PathSummaryView::summarize(p), p.depth()),
    decreases p,
{
    let s = PathSummaryView::summarize(p);
    summarize_valid(p);
    match p {
        PathTypeView::Edge(q, d) => {
            let t = PathSummaryView::summarize(*q);
            summarize_bounded(*q);
            summarize_valid(*q);
            extended_reaches(t, d);
            if !d.is_empty() {
                assert forall|k: (DescriptorTypeView, DescriptorTypeView)| #[trigger]
                    s.pairs.contains_key(k) implies s.pairs[k] <= p.depth() by {
                    assert((k.0, k.1) == k);
                    let z = Arm { first: k.0, last: k.1, len: s.pairs[k] };
                    assert(s.reaches(z));
                    let x = choose|x: Arm| #[trigger]
                        t.reaches(x) && x.first == z.first && x.len < z.len;
                    let u = reached_within(t, q.depth(), x);
                    let w = Arm { first: k.0, last: k.1, len: u.len + 1 };
                    assert(t.reaches(u) && u.first == w.first && u.len < w.len);
                    assert(s.reaches(w));
                }
            }
        },
        PathTypeView::Union(a, b) => {
            summarize_bounded(*a);
            summarize_bounded(*b);
        },
        _ => {},
    }
}

impl Clone for PathSummary {
    fn clone(&self) -> (r: Self)
        ensures
            r@ == self@,
    {
        proof {
            use_type_invariant(self);
        }
        let nodes = clone_nodes(&self.nodes);
        let pairs = clone_pairs(&self.pairs);
        proof {
            same_lists(self.nodes@, self.pairs@, nodes@, pairs@);
        }
        PathSummary { nodes, pairs }
    }
}

impl Default for PathSummary {
    /// No alternative.
    fn default() -> (r: Self)
        ensures
            r@ == PathSummaryView::zero(),
    {
        PathSummary::zero()
    }
}

impl PathSummary {
    #[verifier::type_invariant]
    spec fn inv(self) -> bool {
        distinct_pairs(self.pairs@)
    }

    /// The value.
    pub closed spec fn view(&self) -> PathSummaryView {
        listed_view(self.nodes@, self.pairs@)
    }

    /// No alternative.
    pub fn zero() -> (r: Self)
        ensures
            r@ == PathSummaryView::zero(),
    {
        let r = PathSummary { nodes: Vec::new(), pairs: Vec::new() };
        proof {
            listed_empty(r.nodes@, r.pairs@);
        }
        r
    }

    /// A single node.
    pub fn node(desc: DescriptorType) -> (r: Self)
        ensures
            r@ == PathSummaryView::node(desc@),
    {
        let mut nodes: Vec<DescriptorType> = Vec::new();
        let ghost none = nodes@;
        insert_node(&mut nodes, desc);
        let r = PathSummary { nodes, pairs: Vec::new() };
        proof {
            listed_reaches(r.nodes@, r.pairs@);
            assert forall|z: Arm| #[trigger]
                r@.reaches(z) == PathSummaryView::node(desc@).reaches(z) by {
                assert(has_node(r.nodes@, z.first) == (has_node(none, z.first) || z.first
                    == desc@));
            }
            same_reach(r@, PathSummaryView::node(desc@));
        }
        r
    }

    /// Any node.
    pub fn star_node() -> (r: Self)
        ensures
            r@ == PathSummaryView::node(DescriptorTypeView::star()),
    {
        PathSummary::node(DescriptorType::star())
    }

    /// Whether two summaries have the same alternatives.
    pub fn same(&self, other: &PathSummary) -> (r: bool)
        ensures
            r == (self@ == other@),
    {
        proof {
            use_type_invariant(self);
            use_type_invariant(other);
            listed_reaches(self.nodes@, self.pairs@);
            listed_reaches(other.nodes@, other.pairs@);
        }
        let r = self.within(other) && other.within(self);
        proof {
            if r {
                assert forall|z: Arm| #[trigger] self@.reaches(z) == other@.reaches(z) by {
                    if self@.reaches(z) {
                        assert(other@.reaches(z));
                    }
                    if other@.reaches(z) {
                        assert(self@.reaches(z));
                    }
                }
                same_reach(self@, other@);
            }
        }
        r
    }

    /// Whether every alternative is one of the other.
    fn within(&self, other: &PathSummary) -> (r: bool)
        ensures
            r == forall|z: Arm| #[trigger] self@.reaches(z) ==> other@.reaches(z),
    {
        proof {
            use_type_invariant(self);
            use_type_invariant(other);
            listed_reaches(self.nodes@, self.pairs@);
            listed_reaches(other.nodes@, other.pairs@);
        }
        let mut i: usize = 0;
        while i < self.nodes.len()
            invariant
                i <= self.nodes.len(),
                forall|z: Arm| #[trigger]
                    self@.reaches(z) == listed(self.nodes@, self.pairs@, z),
                forall|z: Arm| #[trigger]
                    other@.reaches(z) == listed(other.nodes@, other.pairs@, z),
                forall|j: int|
                    0 <= j < i ==> has_node(other.nodes@, (#[trigger] self.nodes@[j])@),
            decreases self.nodes.len() - i,
        {
            let mut found = false;
            let mut k: usize = 0;
            while k < other.nodes.len()
                invariant
                    k <= other.nodes.len(),
                    i < self.nodes.len(),
                    found ==> has_node(other.nodes@, self.nodes@[i as int]@),
                    !found ==> forall|j: int|
                        0 <= j < k ==> (#[trigger] other.nodes@[j])@ != self.nodes@[i as int]@,
                decreases other.nodes.len() - k,
            {
                if self.nodes[i].same(&other.nodes[k]) {
                    found = true;
                }
                k = k + 1;
            }
            if !found {
                proof {
                    let d = self.nodes@[i as int]@;
                    let z = Arm { first: d, last: d, len: 0 };
                    assert(has_node(self.nodes@, d));
                    assert(self@.reaches(z) && !other@.reaches(z));
                }
                return false;
            }
            i = i + 1;
        }
        let mut p: usize = 0;
        while p < self.pairs.len()
            invariant
                p <= self.pairs.len(),
                distinct_pairs(self.pairs@),
                forall|z: Arm| #[trigger]
                    self@.reaches(z) == listed(self.nodes@, self.pairs@, z),
                forall|z: Arm| #[trigger]
                    other@.reaches(z) == listed(other.nodes@, other.pairs@, z),
                forall|j: int|
                    0 <= j < p ==> has_pair(
                        other.pairs@,
                        (#[trigger] self.pairs@[j]).0@,
                        self.pairs@[j].1@,
                        self.pairs@[j].2 as nat,
                    ),
            decreases self.pairs.len() - p,
        {
            let mut found = false;
            let mut k: usize = 0;
            let ghost e = self.pairs@[p as int];
            while k < other.pairs.len()
                invariant
                    k <= other.pairs.len(),
                    p < self.pairs.len(),
                    e == self.pairs@[p as int],
                    found ==> has_pair(other.pairs@, e.0@, e.1@, e.2 as nat),
                    !found ==> forall|j: int|
                        0 <= j < k ==> !((#[trigger] other.pairs@[j]).0@ == e.0@
                            && other.pairs@[j].1@ == e.1@ && other.pairs@[j].2 <= e.2),
                decreases other.pairs.len() - k,
            {
                if self.pairs[p].0.same(&other.pairs[k].0) && self.pairs[p].1.same(
                    &other.pairs[k].1,
                ) && other.pairs[k].2 <= self.pairs[p].2 {
                    found = true;
                    assert(other.pairs@[k as int].0@ == e.0@);
                }
                k = k + 1;
            }
            if !found {
                proof {
                    let z = pair_arm(e);
                    assert(e.2 >= 1);
                    assert(has_pair(self.pairs@, e.0@, e.1@, e.2 as nat)) by {
                        assert(self.pairs@[p as int].0@ == e.0@);
                    }
                    assert(self@.reaches(z) && !other@.reaches(z));
                }
                return false;
            }
            p = p + 1;
        }
        proof {
            assert forall|z: Arm| #[trigger] self@.reaches(z) implies other@.reaches(z) by {
                if z.len == 0 {
                    let j = choose|j: int|
                        0 <= j < self.nodes@.len() && (#[trigger] self.nodes@[j])@ == z.first;
                    assert(has_node(other.nodes@, self.nodes@[j]@));
                } else {
                    let j = choose|j: int|
                        0 <= j < self.pairs@.len() && (#[trigger] self.pairs@[j]).0@ == z.first
                            && self.pairs@[j].1@ == z.last && self.pairs@[j].2 <= z.len;
                    let q = self.pairs@[j];
                    assert(has_pair(other.pairs@, q.0@, q.1@, q.2 as nat));
                    let k = choose|k: int|
                        0 <= k < other.pairs@.len() && (#[trigger] other.pairs@[k]).0@ == q.0@
                            && other.pairs@[k].1@ == q.1@ && other.pairs@[k].2 <= q.2;
                    assert(other.pairs@[k].2 <= z.len);
                    assert(has_pair(other.pairs@, z.first, z.last, z.len));
                }
            }
        }
        true
    }

    /// The least number of edges; zero where there is no alternative.
    pub fn len(&self) -> (r: usize)
        ensures
            self@.has_len(r as nat),
    {
        proof {
            use_type_invariant(self);
            listed_empty(self.nodes@, self.pairs@);
        }
        if self.nodes.len() > 0 || self.pairs.len() == 0 {
            return 0;
        }
        let mut best: usize = self.pairs[0].2;
        let ghost mut at: int = 0;
        let mut i: usize = 1;
        while i < self.pairs.len()
            invariant
                1 <= i <= self.pairs.len(),
                0 <= at < i,
                best == self.pairs@[at].2,
                forall|j: int| 0 <= j < i ==> best <= (#[trigger] self.pairs@[j]).2,
            decreases self.pairs.len() - i,
        {
            if self.pairs[i].2 < best {
                best = self.pairs[i].2;
                proof {
                    at = i as int;
                }
            }
            i = i + 1;
        }
        proof {
            listed_pair(self.nodes@, self.pairs@, at);
            assert forall|k: (DescriptorTypeView, DescriptorTypeView)| #[trigger]
                self@.pairs.contains_key(k) implies best <= self@.pairs[k] by {
                let j = pair_listed(self.nodes@, self.pairs@, k);
            }
        }
        best
    }

    /// Whether some alternative has no edges, or there is none at all.
    pub fn is_empty(&self) -> (r: bool)
        ensures
            r == self@.is_empty(),
    {
        proof {
            use_type_invariant(self);
            listed_empty(self.nodes@, self.pairs@);
        }
        self.nodes.len() > 0 || self.pairs.len() == 0
    }

    /// Whether no alternative is left.
    pub fn is_unsatisfiable(&self) -> (r: bool)
        ensures
            r == self@.is_unsatisfiable(),
    {
        proof {
            use_type_invariant(self);
            listed_empty(self.nodes@, self.pairs@);
        }
        self.nodes.len() == 0 && self.pairs.len() == 0
    }

    /// The alternatives of both.
    pub fn union(a: PathSummary, b: PathSummary) -> (r: PathSummary)
        ensures
            r@ == a@.union(b@),
    {
        proof {
            use_type_invariant(&a);
            use_type_invariant(&b);
        }
        let mut nodes = clone_nodes(&a.nodes);
        let mut pairs = clone_pairs(&a.pairs);
        let ghost ns = nodes@;
        let ghost ps = pairs@;
        proof {
            same_lists(a.nodes@, a.pairs@, ns, ps);
        }
        let mut i: usize = 0;
        while i < b.nodes.len()
            invariant
                i <= b.nodes.len(),
                forall|d: DescriptorTypeView| #[trigger]
                    has_node(nodes@, d) == (has_node(ns, d) || exists|j: int|
                        0 <= j < i && (#[trigger] b.nodes@[j])@ == d),
            decreases b.nodes.len() - i,
        {
            let ghost ns1 = nodes@;
            insert_node(&mut nodes, b.nodes[i].clone());
            proof {
                assert forall|d: DescriptorTypeView| #[trigger]
                    has_node(nodes@, d) == (has_node(ns, d) || exists|j: int|
                        0 <= j < i + 1 && (#[trigger] b.nodes@[j])@ == d) by {
                    assert(has_node(nodes@, d) == (has_node(ns1, d) || d == b.nodes@[i as int]@));
                }
            }
            i = i + 1;
        }
        let mut k: usize = 0;
        while k < b.pairs.len()
            invariant
                k <= b.pairs.len(),
                distinct_pairs(b.pairs@),
                distinct_pairs(pairs@),
                forall|f: DescriptorTypeView, l: DescriptorTypeView, n: nat| #[trigger]
                    has_pair(pairs@, f, l, n) == (has_pair(ps, f, l, n) || exists|j: int|
                        0 <= j < k && (#[trigger] b.pairs@[j]).0@ == f && b.pairs@[j].1@ == l
                            && b.pairs@[j].2 <= n),
            decreases b.pairs.len() - k,
        {
            let ghost ps1 = pairs@;
            let ghost e = b.pairs@[k as int];
            insert_pair(
                &mut pairs,
                b.pairs[k].0.clone(),
                b.pairs[k].1.clone(),
                b.pairs[k].2,
            );
            proof {
                assert forall|f: DescriptorTypeView, l: DescriptorTypeView, n: nat| #[trigger]
                    has_pair(pairs@, f, l, n) == (has_pair(ps, f, l, n) || exists|j: int|
                        0 <= j < k + 1 && (#[trigger] b.pairs@[j]).0@ == f && b.pairs@[j].1@ == l
                            && b.pairs@[j].2 <= n) by {
                    assert(has_pair(pairs@, f, l, n) == (has_pair(ps1, f, l, n) || (f == e.0@ && l
                        == e.1@ && n >= e.2)));
                }
            }
            k = k + 1;
        }
        let r = PathSummary { nodes, pairs };
        proof {
            listed_reaches(ns, ps);
            listed_reaches(b.nodes@, b.pairs@);
            listed_reaches(r.nodes@, r.pairs@);
            union_reaches(a@, b@);
            assert forall|z: Arm| #[trigger] r@.reaches(z) == a@.union(b@).reaches(z) by {
                assert(r@.reaches(z) == listed(r.nodes@, r.pairs@, z));
                assert(a@.reaches(z) == listed(ns, ps, z));
                assert(b@.reaches(z) == listed(b.nodes@, b.pairs@, z));
            }
            same_reach(r@, a@.union(b@));
        }
        r
    }

    /// Two summaries one after the other.
    pub fn meet(schema: &Schema, a: &PathSummary, b: &PathSummary) -> (r: PathSummary)
        requires
            forall|k: (DescriptorTypeView, DescriptorTypeView), l: (
                DescriptorTypeView,
                DescriptorTypeView,
            )|
                #[trigger] a@.pairs.contains_key(k) && #[trigger] b@.pairs.contains_key(l)
                    ==> a@.pairs[k] + b@.pairs[l] <= usize::MAX,
        ensures
            r@ == PathSummaryView::meet(schema@, a@, b@),
    {
        proof {
            use_type_invariant(a);
            use_type_invariant(b);
        }
        let mut nodes: Vec<DescriptorType> = Vec::new();
        let mut pairs: Vec<(DescriptorType, DescriptorType, usize)> = Vec::new();
        let ghost ns0 = nodes@;
        let ghost ps0 = pairs@;
        let mut i: usize = 0;
        while i < a.pairs.len()
            invariant
                i <= a.pairs.len(),
                distinct_pairs(a.pairs@),
                distinct_pairs(b.pairs@),
                distinct_pairs(pairs@),
                ns0.len() == 0,
                ps0.len() == 0,
                forall|k: (DescriptorTypeView, DescriptorTypeView), l: (
                    DescriptorTypeView,
                    DescriptorTypeView,
                )|
                    #[trigger] a@.pairs.contains_key(k) && #[trigger] b@.pairs.contains_key(l)
                        ==> a@.pairs[k] + b@.pairs[l] <= usize::MAX,
                forall|z: Arm| #[trigger]
                    listed(nodes@, pairs@, z) == exists|j: int|
                        0 <= j < i && #[trigger] row(
                            schema@,
                            pair_arm(a.pairs@[j]),
                            b.nodes@,
                            b.pairs@,
                            z,
                        ),
            decreases a.pairs.len() - i,
        {
            let ghost ns1 = nodes@;
            let ghost ps1 = pairs@;
            let x = &a.pairs[i];
            proof {
                listed_pair(a.nodes@, a.pairs@, i as int);
                assert(a@.pairs.contains_key((x.0@, x.1@)));
                assert forall|j: int| 0 <= j < b.pairs@.len() implies x.2 + (
                #[trigger] b.pairs@[j]).2 <= usize::MAX by {
                    listed_pair(b.nodes@, b.pairs@, j);
                    assert(b@.pairs.contains_key((b.pairs@[j].0@, b.pairs@[j].1@)));
                }
            }
            add_row(schema, &x.0, &x.1, x.2, b, &mut nodes, &mut pairs);
            proof {
                assert forall|z: Arm| #[trigger]
                    listed(nodes@, pairs@, z) == exists|j: int|
                        0 <= j < i + 1 && #[trigger] row(
                            schema@,
                            pair_arm(a.pairs@[j]),
                            b.nodes@,
                            b.pairs@,
                            z,
                        ) by {
                    assert(listed(nodes@, pairs@, z) == (listed(ns1, ps1, z) || row(
                        schema@,
                        pair_arm(a.pairs@[i as int]),
                        b.nodes@,
                        b.pairs@,
                        z,
                    )));
                }
            }
            i = i + 1;
        }
        let ghost ns2 = nodes@;
        let ghost ps2 = pairs@;
        let mut k: usize = 0;
        while k < a.nodes.len()
            invariant
                k <= a.nodes.len(),
                distinct_pairs(b.pairs@),
                distinct_pairs(pairs@),
                forall|z: Arm| #[trigger]
                    listed(nodes@, pairs@, z) == (listed(ns2, ps2, z) || exists|j: int|
                        0 <= j < k && #[trigger] row(
                            schema@,
                            node_arm(a.nodes@[j]),
                            b.nodes@,
                            b.pairs@,
                            z,
                        )),
            decreases a.nodes.len() - k,
        {
            let ghost ns1 = nodes@;
            let ghost ps1 = pairs@;
            let d = &a.nodes[k];
            add_row(schema, d, d, 0, b, &mut nodes, &mut pairs);
            proof {
                assert forall|z: Arm| #[trigger]
                    listed(nodes@, pairs@, z) == (listed(ns2, ps2, z) || exists|j: int|
                        0 <= j < k + 1 && #[trigger] row(
                            schema@,
                            node_arm(a.nodes@[j]),
                            b.nodes@,
                            b.pairs@,
                            z,
                        )) by {
                    assert(listed(nodes@, pairs@, z) == (listed(ns1, ps1, z) || row(
                        schema@,
                        node_arm(a.nodes@[k as int]),
                        b.nodes@,
                        b.pairs@,
                        z,
                    )));
                }
            }
            k = k + 1;
        }
        let r = PathSummary { nodes, pairs };
        proof {
            listed_reaches(r.nodes@, r.pairs@);
            meet_reaches(schema@, a@, b@);
            let m = PathSummaryView::meet(schema@, a@, b@);
            assert forall|z: Arm| #[trigger] r@.reaches(z) == m.reaches(z) by {
                entries_compose(schema@, a.nodes@, a.pairs@, b.nodes@, b.pairs@, z);
                assert(r@.reaches(z) == listed(r.nodes@, r.pairs@, z));
                assert(m.reaches(z) == PathSummaryView::composes(schema@, a@, b@, z));
                assert(listed(r.nodes@, r.pairs@, z) == (listed(ns2, ps2, z) || exists|j: int|
                    0 <= j < k && #[trigger] row(
                        schema@,
                        node_arm(a.nodes@[j]),
                        b.nodes@,
                        b.pairs@,
                        z,
                    )));
                rows_are_joins(schema@, a.nodes@, a.pairs@, b.nodes@, b.pairs@, z);
            }
            same_reach(r@, m);
        }
        r
    }

    /// A summary repeated `n` times.
    pub fn pow(schema: &Schema, p: &PathSummary, n: u64) -> (r: PathSummary)
        requires
            forall|k: (DescriptorTypeView, DescriptorTypeView)| #[trigger]
                p@.pairs.contains_key(k) ==> p@.pairs[k] * n <= usize::MAX,
        ensures
            r@ == PathSummaryView::pow(schema@, p@, n as nat),
        decreases n,
    {
        if n == 0 {
            PathSummary::star_node()
        } else if n == 1 {
            p.clone()
        } else {
            proof {
                use_type_invariant(p);
                listed_reaches(p.nodes@, p.pairs@);
                assert forall|k: (DescriptorTypeView, DescriptorTypeView)| #[trigger]
                    p@.pairs.contains_key(k) implies p@.pairs[k] * (n - 1) <= usize::MAX by {
                    let v = p@.pairs[k];
                    assert(v * (n - 1) <= v * n) by (nonlinear_arith);
                }
            }
            let rest = PathSummary::pow(schema, p, n - 1);
            proof {
                let m = ((usize::MAX as int) / (n as int)) as nat;
                assert(m * n <= usize::MAX) by (nonlinear_arith)
                    requires
                        m == (usize::MAX as int) / (n as int),
                        n > 1,
                ;
                assert(bounded(p@, m)) by {
                    assert forall|k: (DescriptorTypeView, DescriptorTypeView)| #[trigger]
                        p@.pairs.contains_key(k) implies p@.pairs[k] <= m by {
                        let v = p@.pairs[k];
                        assert(v <= m) by (nonlinear_arith)
                            requires
                                v * n <= usize::MAX,
                                m == (usize::MAX as int) / (n as int),
                                n > 1,
                        ;
                    }
                }
                pow_bounded(schema@, p@, m, (n - 1) as nat);
                assert(m + ((n - 1) as nat) * m == m * n) by (nonlinear_arith)
                    requires
                        n > 1,
                ;
                assert forall|k: (DescriptorTypeView, DescriptorTypeView), l: (
                    DescriptorTypeView,
                    DescriptorTypeView,
                )|
                    #[trigger] p@.pairs.contains_key(k) && #[trigger] rest@.pairs.contains_key(
                        l,
                    ) implies p@.pairs[k] + rest@.pairs[l] <= usize::MAX by {
                    assert(p@.pairs[k] <= m);
                    assert(rest@.pairs[l] <= ((n - 1) as nat) * m);
                }
            }
            PathSummary::meet(schema, p, &rest)
        }
    }

    /// The summary of a path type.
    pub fn summarize(p: &PathType) -> (r: PathSummary)
        requires
            p@.depth() <= usize::MAX,
        ensures
            r@ == PathSummaryView::summarize(p@),
        decreases p,
    {
        match p {
            PathType::Zero => PathSummary::zero(),
            PathType::Node(n) => if n.desc.is_empty() {
                PathSummary::zero()
            } else {
                PathSummary::node(n.desc.clone())
            },
            PathType::Edge(e) => {
                if e.n2.desc.is_empty() {
                    return PathSummary::zero();
                }
                let prefix = PathSummary::summarize(&e.p1);
                proof {
                    summarize_bounded(e.p1@);
                }
                prefix.extend_by(&e.n2.desc)
            },
            PathType::Union(p1, p2) => {
                let a = PathSummary::summarize(p1);
                let b = PathSummary::summarize(p2);
                PathSummary::union(a, b)
            },
        }
    }

    /// Every alternative continued by an edge to a node.
    fn extend_by(&self, d: &DescriptorType) -> (r: PathSummary)
        requires
            forall|k: (DescriptorTypeView, DescriptorTypeView)| #[trigger]
                self@.pairs.contains_key(k) ==> self@.pairs[k] < usize::MAX,
        ensures
            r@ == self@.extended(d@),
    {
        proof {
            use_type_invariant(self);
        }
        let mut pairs: Vec<(DescriptorType, DescriptorType, usize)> = Vec::new();
        let ghost none = pairs@;
        let mut i: usize = 0;
        while i < self.nodes.len()
            invariant
                i <= self.nodes.len(),
                distinct_pairs(pairs@),
                forall|f: DescriptorTypeView, l: DescriptorTypeView, n: nat| #[trigger]
                    has_pair(pairs@, f, l, n) == (l == d@ && n >= 1 && exists|j: int|
                        0 <= j < i && (#[trigger] self.nodes@[j])@ == f),
            decreases self.nodes.len() - i,
        {
            let ghost ps1 = pairs@;
            insert_pair(&mut pairs, self.nodes[i].clone(), d.clone(), 1);
            proof {
                assert forall|f: DescriptorTypeView, l: DescriptorTypeView, n: nat| #[trigger]
                    has_pair(pairs@, f, l, n) == (l == d@ && n >= 1 && exists|j: int|
                        0 <= j < i + 1 && (#[trigger] self.nodes@[j])@ == f) by {
                    assert(has_pair(pairs@, f, l, n) == (has_pair(ps1, f, l, n) || (f
                        == self.nodes@[i as int]@ && l == d@ && n >= 1)));
                }
            }
            i = i + 1;
        }
        let ghost ps2 = pairs@;
        let mut k: usize = 0;
        while k < self.pairs.len()
            invariant
                k <= self.pairs.len(),
                distinct_pairs(self.pairs@),
                distinct_pairs(pairs@),
                forall|p: (DescriptorTypeView, DescriptorTypeView)| #[trigger]
                    self@.pairs.contains_key(p) ==> self@.pairs[p] < usize::MAX,
                forall|f: DescriptorTypeView, l: DescriptorTypeView, n: nat| #[trigger]
                    has_pair(pairs@, f, l, n) == (has_pair(ps2, f, l, n) || (l == d@ && exists|
                        j: int,
                    |
                        0 <= j < k && (#[trigger] self.pairs@[j]).0@ == f && self.pairs@[j].2
                            < n)),
            decreases self.pairs.len() - k,
        {
            let ghost ps1 = pairs@;
            proof {
                listed_pair(self.nodes@, self.pairs@, k as int);
                let e = self.pairs@[k as int];
                assert(self@.pairs.contains_key((e.0@, e.1@)));
            }
            let n: usize = self.pairs[k].2;
            insert_pair(&mut pairs, self.pairs[k].0.clone(), d.clone(), n + 1);
            proof {
                assert forall|f: DescriptorTypeView, l: DescriptorTypeView, m: nat| #[trigger]
                    has_pair(pairs@, f, l, m) == (has_pair(ps2, f, l, m) || (l == d@ && exists|
                        j: int,
                    |
                        0 <= j < k + 1 && (#[trigger] self.pairs@[j]).0@ == f && self.pairs@[j].2
                            < m)) by {
                    assert(has_pair(pairs@, f, l, m) == (has_pair(ps1, f, l, m) || (f
                        == self.pairs@[k as int].0@ && l == d@ && m >= n + 1)));
                }
            }
            k = k + 1;
        }
        let r = PathSummary { nodes: Vec::new(), pairs };
        proof {
            listed_reaches(self.nodes@, self.pairs@);
            listed_reaches(r.nodes@, r.pairs@);
            extended_reaches(self@, d@);
            let x = self@.extended(d@);
            assert forall|z: Arm| #[trigger] r@.reaches(z) == x.reaches(z) by {
                if r@.reaches(z) {
                    assert(has_pair(r.pairs@, z.first, z.last, z.len));
                    if has_pair(ps2, z.first, z.last, z.len) {
                        let w = Arm { first: z.first, last: z.first, len: 0 };
                        assert(has_node(self.nodes@, z.first));
                        assert(self@.reaches(w) && w.first == z.first && w.len < z.len);
                    } else {
                        let j = choose|j: int|
                            0 <= j < k && (#[trigger] self.pairs@[j]).0@ == z.first
                                && self.pairs@[j].2 < z.len;
                        let w = pair_arm(self.pairs@[j]);
                        assert(has_pair(self.pairs@, w.first, w.last, w.len));
                        assert(self@.reaches(w) && w.first == z.first && w.len < z.len);
                    }
                }
                if x.reaches(z) {
                    let w = choose|w: Arm| #[trigger]
                        self@.reaches(w) && w.first == z.first && w.len < z.len;
                    assert(listed(self.nodes@, self.pairs@, w));
                    if w.len == 0 {
                        let j = choose|j: int|
                            0 <= j < self.nodes@.len() && (#[trigger] self.nodes@[j])@ == w.first;
                        assert(has_pair(ps2, z.first, z.last, z.len));
                    } else {
                        let j = choose|j: int|
                            0 <= j < self.pairs@.len() && (#[trigger] self.pairs@[j]).0@ == w.first
                                && self.pairs@[j].1@ == w.last && self.pairs@[j].2 <= w.len;
                        assert(self.pairs@[j].2 < z.len);
                    }
                    assert(has_pair(r.pairs@, z.first, z.last, z.len));
                }
            }
            same_reach(r@, x);
        }
        r
    }

    /// The summary of a variable type crossed in a direction.
    pub fn from_variable(t: &VariableType, dir: EdgeDir) -> (r: PathSummary)
        ensures
            r@ == PathSummaryView::from_variable(t@, dir),
        decreases t,
    {
        match t {
            VariableType::Node(d) => PathSummary::node(d.clone()),
            VariableType::EdgeDirectional { left, right, .. } => directed_edge_pairs(
                left,
                right,
                dir,
            ),
            VariableType::EdgeNonDirectional { left, right, .. } => directed_edge_pairs(
                left,
                right,
                EdgeDir::Any,
            ),
            VariableType::Union(t1, t2) => {
                let a = PathSummary::from_variable(t1, dir);
                let b = PathSummary::from_variable(t2, dir);
                PathSummary::union(a, b)
            },
            VariableType::Group(_) => PathSummary::zero(),
            VariableType::Null => PathSummary::zero(),
            VariableType::Path => PathSummary::zero(),
            VariableType::Zero => PathSummary::zero(),
        }
    }
}

/// Joining every listed alternative of one with every one of the other.
proof fn rows_are_joins(
    schema: SchemaView,
    ns: Seq<DescriptorType>,
    ps: Seq<(DescriptorType, DescriptorType, usize)>,
    ms: Seq<DescriptorType>,
    qs: Seq<(DescriptorType, DescriptorType, usize)>,
    z: Arm,
)
    ensures
        (exists|x: Arm, y: Arm|
            is_entry(ns, ps, x) && is_entry(ms, qs, y) && #[trigger] joins(schema, x, y, z)) == ((
        exists|j: int| 0 <= j < ps.len() && #[trigger] row(schema, pair_arm(ps[j]), ms, qs, z)) || (
        exists|j: int| 0 <= j < ns.len() && #[trigger] row(schema, node_arm(ns[j]), ms, qs, z))),
{
    if exists|x: Arm, y: Arm|
        is_entry(ns, ps, x) && is_entry(ms, qs, y) && #[trigger] joins(schema, x, y, z) {
        let (x, y) = choose|x: Arm, y: Arm|
            is_entry(ns, ps, x) && is_entry(ms, qs, y) && #[trigger] joins(schema, x, y, z);
        assert(row(schema, x, ms, qs, z));
        if x.len == 0 && x.first == x.last && has_node(ns, x.first) {
            let j = choose|j: int| 0 <= j < ns.len() && (#[trigger] ns[j])@ == x.first;
            assert(x == node_arm(ns[j]));
        } else {
            let j = choose|j: int| 0 <= j < ps.len() && x == #[trigger] pair_arm(ps[j]);
            assert(row(schema, pair_arm(ps[j]), ms, qs, z));
        }
    }
    if exists|j: int| 0 <= j < ps.len() && #[trigger] row(schema, pair_arm(ps[j]), ms, qs, z) {
        let j = choose|j: int|
            0 <= j < ps.len() && #[trigger] row(schema, pair_arm(ps[j]), ms, qs, z);
        assert(is_entry(ns, ps, pair_arm(ps[j])));
    }
    if exists|j: int| 0 <= j < ns.len() && #[trigger] row(schema, node_arm(ns[j]), ms, qs, z) {
        let j = choose|j: int|
            0 <= j < ns.len() && #[trigger] row(schema, node_arm(ns[j]), ms, qs, z);
        assert(has_node(ns, ns[j]@));
        assert(is_entry(ns, ps, node_arm(ns[j])));
    }
}

/// The pairs of an edge, seen in a direction.
fn directed_edge_pairs(left: &VariableType, right: &VariableType, dir: EdgeDir) -> (r: PathSummary)
    ensures
        r@ == PathSummaryView::edge_pairs(left@, right@, dir),
{
    let (l, r) = match (left, right) {
        (VariableType::Node(l), VariableType::Node(r)) => (l, r),
        _ => {
            return PathSummary::zero();
        },
    };
    let mut pairs: Vec<(DescriptorType, DescriptorType, usize)> = Vec::new();
    let ghost none = pairs@;
    let forward = match dir {
        EdgeDir::Left => false,
        _ => true,
    };
    let backward = match dir {
        EdgeDir::Right => false,
        _ => true,
    };
    if forward {
        insert_pair(&mut pairs, l.clone(), r.clone(), 1);
    }
    let ghost mid = pairs@;
    if backward {
        insert_pair(&mut pairs, r.clone(), l.clone(), 1);
    }
    let s = PathSummary { nodes: Vec::new(), pairs };
    proof {
        let v = PathSummaryView::edge_pairs(left@, right@, dir);
        let z0 = PathSummaryView::zero();
        with_pair_reaches(z0, l@, r@, 1);
        with_pair_reaches(z0, r@, l@, 1);
        with_pair_reaches(z0.with_pair(l@, r@, 1), r@, l@, 1);
        listed_reaches(s.nodes@, s.pairs@);
        assert forall|z: Arm| #[trigger] s@.reaches(z) == v.reaches(z) by {
            assert(s@.reaches(z) == listed(s.nodes@, s.pairs@, z));
            assert(has_pair(s.pairs@, z.first, z.last, z.len) == (has_pair(
                mid,
                z.first,
                z.last,
                z.len,
            ) || (backward && z.first == r@ && z.last == l@ && z.len >= 1)));
            assert(has_pair(mid, z.first, z.last, z.len) == (has_pair(
                none,
                z.first,
                z.last,
                z.len,
            ) || (forward && z.first == l@ && z.last == r@ && z.len >= 1)));
        }
        same_reach(s@, v);
    }
    s
}

/// The pairs of members of two sets.
spec fn product(a: Set<DescriptorTypeView>, b: Set<DescriptorTypeView>) -> Set<
    (DescriptorTypeView, DescriptorTypeView),
> {
    Set::new(|k: (DescriptorTypeView, DescriptorTypeView)| a.contains(k.0) && b.contains(k.1))
}

proof fn product_size(a: Set<DescriptorTypeView>, b: Set<DescriptorTypeView>)
    requires
        a.finite(),
        b.finite(),
    ensures
        product(a, b).finite(),
        product(a, b).len() == a.len() * b.len(),
    decreases a.len(),
{
    if a.len() == 0 {
        assert(product(a, b) =~= Set::empty());
        assert(0 * b.len() == 0);
    } else {
        let x = a.choose();
        let rest = a.remove(x);
        product_size(rest, b);
        let row = b.map(|d: DescriptorTypeView| (x, d));
        vstd::set_lib::lemma_map_size(b, row, |d: DescriptorTypeView| (x, d));
        assert(product(a, b) =~= product(rest, b).union(row)) by {
            assert forall|k: (DescriptorTypeView, DescriptorTypeView)|
                product(a, b).contains(k) implies product(rest, b).union(row).contains(k) by {
                if k.0 == x {
                    assert(row.contains((x, k.1)));
                }
            }
        }
        assert(product(rest, b).disjoint(row));
        vstd::set_lib::lemma_set_disjoint_lens(product(rest, b), row);
        assert(a.len() * b.len() == rest.len() * b.len() + b.len()) by (nonlinear_arith)
            requires
                a.len() == rest.len() + 1,
        ;
    }
}

/// A summary is no wider than its ends allow: over some descriptors it has at
/// most one alternative without edges for each of them, and at most one with
/// edges for each two of them, however long the paths are.
pub proof fn width_bounded(s: PathSummaryView, ends: Set<DescriptorTypeView>)
    requires
        ends.finite(),
        s.nodes.subset_of(ends),
        forall|k: (DescriptorTypeView, DescriptorTypeView)| #[trigger]
            s.pairs.contains_key(k) ==> ends.contains(k.0) && ends.contains(k.1),
    ensures
        s.nodes.len() <= ends.len(),
        s.pairs.dom().len() <= ends.len() * ends.len(),
{
    vstd::set_lib::lemma_len_subset(s.nodes, ends);
    product_size(ends, ends);
    assert(s.pairs.dom().subset_of(product(ends, ends))) by {
        assert forall|k: (DescriptorTypeView, DescriptorTypeView)|
            s.pairs.dom().contains(k) implies product(ends, ends).contains(k) by {
            assert(s.pairs.contains_key(k));
        }
    }
    vstd::set_lib::lemma_len_subset(s.pairs.dom(), product(ends, ends));
}

} // verus!
