//! Path types: the shape of a sequence of nodes and edges.

use vstd::prelude::*;

use super::descriptor_type::{DescriptorType, DescriptorTypeView};
use super::variable_type::{Schema, SchemaView, VariableType, VariableTypeView};

verus! {

/// The direction in which a pattern crosses an edge.
#[derive(Debug, Clone, Copy, PartialEq, Eq, Structural)]
pub enum EdgeDir {
    Right,
    Left,
    /// Either way.
    Any,
    /// Along an undirected edge.
    Undirected,
}

/// A node of a path.
#[derive(Debug, PartialEq, Eq)]
pub struct NodePathType {
    pub desc: DescriptorType,
}

impl NodePathType {
    /// A node with the given descriptor.
    pub fn new(desc: DescriptorType) -> (r: Self)
        ensures
            r.desc == desc,
    {
        NodePathType { desc }
    }
}

/// A path followed by an edge to a node.
#[derive(Debug, PartialEq, Eq)]
pub struct EdgePathType {
    pub p1: Box<PathType>,
    pub n2: NodePathType,
}

/// The shape of a path.
#[derive(Debug, PartialEq, Eq)]
pub enum PathType {
    /// A single node.
    Node(NodePathType),
    /// A path, an edge and a node.
    Edge(EdgePathType),
    /// Either of two shapes.
    Union(Box<PathType>, Box<PathType>),
    /// No path.
    Zero,
}

/// The value of a `PathType`.
pub enum PathTypeView {
    Node(DescriptorTypeView),
    Edge(Box<PathTypeView>, DescriptorTypeView),
    Union(Box<PathTypeView>, Box<PathTypeView>),
    Zero,
}

/// The path over an edge between two node types, seen in a direction.
pub open spec fn edge_path(
    left: VariableTypeView,
    right: VariableTypeView,
    dir: EdgeDir,
) -> PathTypeView {
    if left is Node && right is Node {
        let forward = PathTypeView::Edge(
            Box::new(PathTypeView::Node(left->Node_0)),
            right->Node_0,
        );
        let reversed = PathTypeView::Edge(
            Box::new(PathTypeView::Node(right->Node_0)),
            left->Node_0,
        );
        match dir {
            EdgeDir::Right => forward,
            EdgeDir::Left => reversed,
            _ => forward.union(reversed),
        }
    } else {
        PathTypeView::Zero
    }
}

impl PathTypeView {
    /// Any node.
    pub open spec fn star_node() -> PathTypeView {
        PathTypeView::Node(DescriptorTypeView::star())
    }

    /// The shape that a variable type has when crossed in a direction. An
    /// undirected edge is crossed both ways.
    pub open spec fn from_variable(t: VariableTypeView, dir: EdgeDir) -> PathTypeView
        decreases t,
    {
        match t {
            VariableTypeView::Node(d) => PathTypeView::Node(d),
            VariableTypeView::EdgeDirectional { left, right, .. } => edge_path(*left, *right, dir),
            VariableTypeView::EdgeNonDirectional { left, right, .. } => edge_path(
                *left,
                *right,
                EdgeDir::Any,
            ),
            VariableTypeView::Union(a, b) => PathTypeView::from_variable(*a, dir).union(
                PathTypeView::from_variable(*b, dir),
            ),
            _ => PathTypeView::Zero,
        }
    }

    /// The number of edges of the shortest alternative.
    pub open spec fn len(self) -> nat
        decreases self,
    {
        match self {
            PathTypeView::Node(_) => 0,
            PathTypeView::Edge(p, _) => p.len() + 1,
            PathTypeView::Union(a, b) => if a.len() <= b.len() {
                a.len()
            } else {
                b.len()
            },
            PathTypeView::Zero => 0,
        }
    }

    /// Some alternative has no edges.
    pub open spec fn is_empty(self) -> bool
        decreases self,
    {
        match self {
            PathTypeView::Node(_) => true,
            PathTypeView::Zero => true,
            PathTypeView::Edge(_, _) => false,
            PathTypeView::Union(a, b) => a.is_empty() || b.is_empty(),
        }
    }

    /// No path has the shape.
    pub open spec fn is_unsatisfiable(self) -> bool
        decreases self,
    {
        match self {
            PathTypeView::Zero => true,
            PathTypeView::Node(d) => d.is_empty(),
            PathTypeView::Edge(p, d) => p.is_unsatisfiable() || d.is_empty(),
            PathTypeView::Union(a, b) => a.is_unsatisfiable() && b.is_unsatisfiable(),
        }
    }

    /// Either of two shapes; bottom is neutral and equal shapes collapse.
    pub open spec fn union(self, other: PathTypeView) -> PathTypeView {
        if self is Zero {
            other
        } else if other is Zero {
            self
        } else if self == other {
            self
        } else {
            PathTypeView::Union(Box::new(self), Box::new(other))
        }
    }

    /// Any of the shapes, from the left.
    pub open spec fn union_all(paths: Seq<PathTypeView>) -> PathTypeView
        decreases paths.len(),
    {
        if paths.len() == 0 {
            PathTypeView::Zero
        } else {
            PathTypeView::union_all(paths.drop_last()).union(paths.last())
        }
    }

    /// The satisfiable ones of two shapes.
    pub open spec fn prune(self, other: PathTypeView) -> PathTypeView {
        if self.is_unsatisfiable() {
            other
        } else if other.is_unsatisfiable() {
            self
        } else {
            self.union(other)
        }
    }

    /// Two shapes one after the other: the last node of the first is the
    /// first node of the second, refined against the schema.
    pub open spec fn meet(schema: SchemaView, p1: PathTypeView, p2: PathTypeView) -> PathTypeView
        decreases p2, p1,
    {
        match (p1, p2) {
            (PathTypeView::Zero, _) => PathTypeView::Zero,
            (_, PathTypeView::Zero) => PathTypeView::Zero,
            (PathTypeView::Node(d1), PathTypeView::Node(d2)) => PathTypeView::union_all(
                node_paths(schema.junction(d1, d2)),
            ),
            (PathTypeView::Edge(p, d1), PathTypeView::Node(d2)) => PathTypeView::union_all(
                edge_paths(*p, schema.junction(d1, d2)),
            ),
            (_, PathTypeView::Edge(q, d)) => PathTypeView::Edge(
                Box::new(PathTypeView::meet(schema, p1, *q)),
                d,
            ),
            (_, PathTypeView::Union(u1, u2)) => PathTypeView::meet(schema, p1, *u1).prune(
                PathTypeView::meet(schema, p1, *u2),
            ),
            (PathTypeView::Union(u1, u2), _) => PathTypeView::meet(schema, *u1, p2).prune(
                PathTypeView::meet(schema, *u2, p2),
            ),
        }
    }

    /// A shape repeated `n` times.
    pub open spec fn pow(schema: SchemaView, p: PathTypeView, n: nat) -> PathTypeView
        decreases n,
    {
        if n == 0 {
            PathTypeView::star_node()
        } else if n == 1 {
            p
        } else {
            PathTypeView::meet(schema, p, PathTypeView::pow(schema, p, (n - 1) as nat))
        }
    }
}

/// A single-node path for each descriptor.
pub open spec fn node_paths(ds: Seq<DescriptorTypeView>) -> Seq<PathTypeView> {
    Seq::new(ds.len(), |i: int| PathTypeView::Node(ds[i]))
}

/// The path continued to each of the nodes.
pub open spec fn edge_paths(p: PathTypeView, ds: Seq<DescriptorTypeView>) -> Seq<PathTypeView> {
    Seq::new(ds.len(), |i: int| PathTypeView::Edge(Box::new(p), ds[i]))
}

/// The value of each path type.
pub open spec fn path_views(v: Seq<PathType>) -> Seq<PathTypeView> {
    Seq::new(v.len(), |i: int| v[i]@)
}

impl Clone for PathType {
    fn clone(&self) -> (r: Self)
        ensures
            r@ == self@,
        decreases self,
    {
        match self {
            PathType::Node(n) => PathType::Node(NodePathType { desc: n.desc.clone() }),
            PathType::Edge(e) => PathType::Edge(
                EdgePathType {
                    p1: Box::new((*e.p1).clone()),
                    n2: NodePathType { desc: e.n2.desc.clone() },
                },
            ),
            PathType::Union(a, b) => PathType::Union(
                Box::new((**a).clone()),
                Box::new((**b).clone()),
            ),
            PathType::Zero => PathType::Zero,
        }
    }
}

impl Default for PathType {
    /// Any node.
    fn default() -> (r: Self)
        ensures
            r@ == PathTypeView::star_node(),
    {
        PathType::Node(NodePathType::new(DescriptorType::star()))
    }
}

impl PathType {
    /// The value.
    pub open spec fn view(&self) -> PathTypeView
        decreases self,
    {
        match self {
            PathType::Node(n) => PathTypeView::Node(n.desc@),
            PathType::Edge(e) => PathTypeView::Edge(Box::new(e.p1.view()), e.n2.desc@),
            PathType::Union(a, b) => PathTypeView::Union(Box::new(a.view()), Box::new(b.view())),
            PathType::Zero => PathTypeView::Zero,
        }
    }

    /// Whether two shapes are equal.
    pub fn same(&self, other: &PathType) -> (r: bool)
        ensures
            r == (self@ == other@),
        decreases self,
    {
        match (self, other) {
            (PathType::Node(a), PathType::Node(b)) => a.desc.same(&b.desc),
            (PathType::Edge(a), PathType::Edge(b)) => a.p1.same(&b.p1) && a.n2.desc.same(
                &b.n2.desc,
            ),
            (PathType::Union(a, b), PathType::Union(c, d)) => a.same(c) && b.same(d),
            (PathType::Zero, PathType::Zero) => true,
            _ => false,
        }
    }

    /// A single node.
    pub fn node(desc: DescriptorType) -> (r: Self)
        ensures
            r@ == PathTypeView::Node(desc@),
    {
        PathType::Node(NodePathType::new(desc))
    }

    /// The shape that a variable type has when crossed in a direction.
    pub fn from_variable(t: &VariableType, dir: EdgeDir) -> (r: PathType)
        ensures
            r@ == PathTypeView::from_variable(t@, dir),
        decreases t,
    {
        match t {
            VariableType::Node(d) => PathType::node(d.clone()),
            VariableType::EdgeDirectional { left, right, .. } => directed_edge_to_path(
                left,
                right,
                dir,
            ),
            VariableType::EdgeNonDirectional { left, right, .. } => directed_edge_to_path(
                left,
                right,
                EdgeDir::Any,
            ),
            VariableType::Union(t1, t2) => {
                let a = PathType::from_variable(t1, dir);
                let b = PathType::from_variable(t2, dir);
                PathType::union(a, b)
            },
            VariableType::Group(_) => PathType::Zero,
            VariableType::Null => PathType::Zero,
            VariableType::Path => PathType::Zero,
            VariableType::Zero => PathType::Zero,
        }
    }

    /// The number of edges of the shortest alternative.
    pub fn len(&self) -> (r: usize)
        requires
            self@.depth() <= usize::MAX,
        ensures
            r == self@.len(),
        decreases self,
    {
        match self {
            PathType::Node(_) => 0,
            PathType::Edge(e) => {
                proof {
                    e.p1@.len_within_depth();
                }
                e.p1.len() + 1
            },
            PathType::Union(p1, p2) => {
                let a = p1.len();
                let b = p2.len();
                if a <= b {
                    a
                } else {
                    b
                }
            },
            PathType::Zero => 0,
        }
    }

    /// Whether some alternative has no edges.
    pub fn is_empty(&self) -> (r: bool)
        ensures
            r == self@.is_empty(),
        decreases self,
    {
        match self {
            PathType::Node(_) => true,
            PathType::Zero => true,
            PathType::Edge(_) => false,
            PathType::Union(p1, p2) => p1.is_empty() || p2.is_empty(),
        }
    }

    /// Whether no path has the shape.
    pub fn is_unsatisfiable(&self) -> (r: bool)
        ensures
            r == self@.is_unsatisfiable(),
        decreases self,
    {
        match self {
            PathType::Zero => true,
            PathType::Node(n) => n.desc.is_empty(),
            PathType::Edge(e) => e.p1.is_unsatisfiable() || e.n2.desc.is_empty(),
            PathType::Union(p1, p2) => p1.is_unsatisfiable() && p2.is_unsatisfiable(),
        }
    }

    /// Either of two shapes.
    pub fn union(p1: PathType, p2: PathType) -> (r: PathType)
        ensures
            r@ == p1@.union(p2@),
    {
        if let PathType::Zero = p1 {
            return p2;
        }
        if let PathType::Zero = p2 {
            return p1;
        }
        if p1.same(&p2) {
            return p1;
        }
        PathType::Union(Box::new(p1), Box::new(p2))
    }

    /// Any of the shapes; none for the empty list.
    pub fn union_from_list(paths: Vec<PathType>) -> (r: PathType)
        ensures
            r@ == PathTypeView::union_all(path_views(paths@)),
    {
        let mut acc = PathType::Zero;
        let mut i: usize = 0;
        while i < paths.len()
            invariant
                i <= paths.len(),
                acc@ == PathTypeView::union_all(path_views(paths@).take(i as int)),
            decreases paths.len() - i,
        {
            proof {
                assert(path_views(paths@).take(i + 1).drop_last() =~= path_views(paths@).take(
                    i as int,
                ));
            }
            acc = PathType::union(acc, paths[i].clone());
            i = i + 1;
        }
        assert(path_views(paths@).take(i as int) =~= path_views(paths@));
        acc
    }

    /// The satisfiable ones of two shapes.
    fn prune(m1: PathType, m2: PathType) -> (r: PathType)
        ensures
            r@ == m1@.prune(m2@),
    {
        if m1.is_unsatisfiable() {
            return m2;
        }
        if m2.is_unsatisfiable() {
            return m1;
        }
        PathType::union(m1, m2)
    }

    /// Two shapes one after the other.
    pub fn meet(schema: &Schema, p1: &PathType, p2: &PathType) -> (r: PathType)
        ensures
            r@ == PathTypeView::meet(schema@, p1@, p2@),
        decreases p2, p1,
    {
        match (p1, p2) {
            (PathType::Zero, _) => PathType::Zero,
            (_, PathType::Zero) => PathType::Zero,
            (PathType::Node(n1), PathType::Node(n2)) => {
                let ds = junction_nodes(schema, &n1.desc, &n2.desc);
                let mut out: Vec<PathType> = Vec::new();
                let mut i: usize = 0;
                while i < ds.len()
                    invariant
                        i <= ds.len(),
                        out@.len() == i,
                        forall|j: int|
                            0 <= j < i ==> (#[trigger] out@[j])@ == PathTypeView::Node(ds@[j]@),
                    decreases ds.len() - i,
                {
                    out.push(PathType::node(ds[i].clone()));
                    i = i + 1;
                }
                assert(path_views(out@) =~= node_paths(schema@.junction(n1.desc@, n2.desc@)));
                PathType::union_from_list(out)
            },
            (PathType::Edge(e), PathType::Node(n2)) => {
                let ds = junction_nodes(schema, &e.n2.desc, &n2.desc);
                let mut out: Vec<PathType> = Vec::new();
                let mut i: usize = 0;
                while i < ds.len()
                    invariant
                        i <= ds.len(),
                        out@.len() == i,
                        forall|j: int|
                            0 <= j < i ==> (#[trigger] out@[j])@ == PathTypeView::Edge(
                                Box::new(e.p1@),
                                ds@[j]@,
                            ),
                    decreases ds.len() - i,
                {
                    let p = PathType::Edge(
                        EdgePathType {
                            p1: Box::new((*e.p1).clone()),
                            n2: NodePathType::new(ds[i].clone()),
                        },
                    );
                    out.push(p);
                    i = i + 1;
                }
                assert(path_views(out@) =~= edge_paths(
                    e.p1@,
                    schema@.junction(e.n2.desc@, n2.desc@),
                ));
                PathType::union_from_list(out)
            },
            (_, PathType::Edge(e)) => {
                let q = PathType::meet(schema, p1, &e.p1);
                PathType::Edge(
                    EdgePathType {
                        p1: Box::new(q),
                        n2: NodePathType { desc: e.n2.desc.clone() },
                    },
                )
            },
            (_, PathType::Union(u1, u2)) => {
                let m1 = PathType::meet(schema, p1, u1);
                let m2 = PathType::meet(schema, p1, u2);
                PathType::prune(m1, m2)
            },
            (PathType::Union(u1, u2), _) => {
                let m1 = PathType::meet(schema, u1, p2);
                let m2 = PathType::meet(schema, u2, p2);
                PathType::prune(m1, m2)
            },
        }
    }

    /// A shape repeated `n` times.
    pub fn pow(schema: &Schema, p: &PathType, n: u64) -> (r: PathType)
        ensures
            r@ == PathTypeView::pow(schema@, p@, n as nat),
        decreases n,
    {
        if n == 0 {
            PathType::default()
        } else if n == 1 {
            p.clone()
        } else {
            let rest = PathType::pow(schema, p, n - 1);
            PathType::meet(schema, p, &rest)
        }
    }
}

impl PathTypeView {
    /// The number of edges of the longest alternative.
    pub open spec fn depth(self) -> nat
        decreases self,
    {
        match self {
            PathTypeView::Node(_) => 0,
            PathTypeView::Edge(p, _) => p.depth() + 1,
            PathTypeView::Union(a, b) => if a.depth() <= b.depth() {
                b.depth()
            } else {
                a.depth()
            },
            PathTypeView::Zero => 0,
        }
    }

    /// The shortest alternative is no longer than the longest.
    pub proof fn len_within_depth(self)
        ensures
            self.len() <= self.depth(),
        decreases self,
    {
        match self {
            PathTypeView::Edge(p, _) => {
                p.len_within_depth();
            },
            PathTypeView::Union(a, b) => {
                a.len_within_depth();
                b.len_within_depth();
            },
            _ => {},
        }
    }
}

/// The descriptors that two node types can have in common.
pub(crate) fn junction_nodes(schema: &Schema, a: &DescriptorType, b: &DescriptorType) -> (r: Vec<
    DescriptorType,
>)
    ensures
        r@.len() == schema@.junction(a@, b@).len(),
        forall|i: int| 0 <= i < r@.len() ==> (#[trigger] r@[i])@ == schema@.junction(a@, b@)[i],
{
    let met = VariableType::Node(DescriptorType::meet(a, b));
    let nodes = VariableType::refine_to_nodes(schema, &met);
    let mut out: Vec<DescriptorType> = Vec::new();
    let mut i: usize = 0;
    while i < nodes.len()
        invariant
            i <= nodes.len(),
            forall|j: int| 0 <= j < nodes@.len() ==> (#[trigger] nodes@[j])@ is Node,
            out@.len() == i,
            forall|j: int|
                0 <= j < i ==> (#[trigger] out@[j])@ == super::variable_type::node_descs(
                    nodes@,
                )[j],
        decreases nodes.len() - i,
    {
        assert(nodes@[i as int]@ is Node);
        match &nodes[i] {
            VariableType::Node(d) => {
                out.push(d.clone());
            },
            _ => {
                out.push(DescriptorType::star());
            },
        }
        i = i + 1;
    }
    out
}

/// The path over an edge, seen in a direction.
fn directed_edge_to_path(left: &VariableType, right: &VariableType, dir: EdgeDir) -> (r: PathType)
    ensures
        r@ == edge_path(left@, right@, dir),
{
    let (l, r) = match (left, right) {
        (VariableType::Node(l), VariableType::Node(r)) => (l, r),
        _ => {
            return PathType::Zero;
        },
    };
    let ln = PathType::node(l.clone());
    let forward = PathType::Edge(
        EdgePathType { p1: Box::new(ln), n2: NodePathType::new(r.clone()) },
    );
    let rn = PathType::node(r.clone());
    let reversed = PathType::Edge(
        EdgePathType { p1: Box::new(rn), n2: NodePathType::new(l.clone()) },
    );
    match dir {
        EdgeDir::Right => forward,
        EdgeDir::Left => reversed,
        EdgeDir::Any => PathType::union(forward, reversed),
        EdgeDir::Undirected => PathType::union(forward, reversed),
    }
}

} // verus!
