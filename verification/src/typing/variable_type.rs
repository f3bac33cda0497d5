//! The types of pattern variables, and the schema they are refined against.

use vstd::prelude::*;

use std::rc::Rc;

use super::descriptor_type::{DescriptorType, DescriptorTypeView};
use super::schema_index::SchemaIndex;
use super::simple_type::{SimpleType, SimpleTypeView};
use crate::text::copy_text;

verus! {

/// The type of a pattern variable.
#[derive(Debug, PartialEq, Eq)]
pub enum VariableType {
    Node(DescriptorType),
    EdgeDirectional { desc: DescriptorType, left: Box<VariableType>, right: Box<VariableType> },
    EdgeNonDirectional { desc: DescriptorType, left: Box<VariableType>, right: Box<VariableType> },
    Union(Box<VariableType>, Box<VariableType>),
    Group(Box<VariableType>),
    /// The type of the null value: a variable that one branch of a join does
    /// not bind.
    Null,
    /// A path variable. It carries no descriptor and is never refined.
    Path,
    Zero,
}

/// The value of a `VariableType`.
pub enum VariableTypeView {
    Node(DescriptorTypeView),
    EdgeDirectional {
        desc: DescriptorTypeView,
        left: Box<VariableTypeView>,
        right: Box<VariableTypeView>,
    },
    EdgeNonDirectional {
        desc: DescriptorTypeView,
        left: Box<VariableTypeView>,
        right: Box<VariableTypeView>,
    },
    Union(Box<VariableTypeView>, Box<VariableTypeView>),
    Group(Box<VariableTypeView>),
    Null,
    Path,
    Zero,
}

/// The value of each type.
pub open spec fn type_views(v: Seq<VariableType>) -> Seq<VariableTypeView> {
    Seq::new(v.len(), |i: int| v[i]@)
}

/// The meet of two edges seen in one orientation; their endpoints are nodes.
pub open spec fn edge_meet(
    d1: DescriptorTypeView,
    l1: VariableTypeView,
    r1: VariableTypeView,
    d2: DescriptorTypeView,
    l2: VariableTypeView,
    r2: VariableTypeView,
) -> Option<(DescriptorTypeView, VariableTypeView, VariableTypeView)> {
    if l1 is Node && l2 is Node && r1 is Node && r2 is Node {
        Some(
            (
                d1.meet(d2),
                VariableTypeView::Node(l1->Node_0.meet(l2->Node_0)),
                VariableTypeView::Node(r1->Node_0.meet(r2->Node_0)),
            ),
        )
    } else {
        None
    }
}

/// Subtyping of two edges seen in one orientation.
pub open spec fn edge_subtype(
    d1: DescriptorTypeView,
    l1: VariableTypeView,
    r1: VariableTypeView,
    d2: DescriptorTypeView,
    l2: VariableTypeView,
    r2: VariableTypeView,
) -> bool {
    &&& d1.subtype(d2)
    &&& l1 is Node && l2 is Node && l1->Node_0.subtype(l2->Node_0)
    &&& r1 is Node && r2 is Node && r1->Node_0.subtype(r2->Node_0)
}

impl VariableTypeView {
    /// Any node.
    pub open spec fn node_star() -> VariableTypeView {
        VariableTypeView::Node(DescriptorTypeView::star())
    }

    /// A directed edge between any nodes.
    pub open spec fn edge_directional(desc: DescriptorTypeView) -> VariableTypeView {
        VariableTypeView::EdgeDirectional {
            desc,
            left: Box::new(VariableTypeView::node_star()),
            right: Box::new(VariableTypeView::node_star()),
        }
    }

    /// An undirected edge between any nodes.
    pub open spec fn edge_non_directional(desc: DescriptorTypeView) -> VariableTypeView {
        VariableTypeView::EdgeNonDirectional {
            desc,
            left: Box::new(VariableTypeView::node_star()),
            right: Box::new(VariableTypeView::node_star()),
        }
    }

    /// The descriptor of a node or an edge.
    pub open spec fn descriptor(self) -> Option<DescriptorTypeView> {
        match self {
            VariableTypeView::Node(d) => Some(d),
            VariableTypeView::EdgeDirectional { desc, .. } => Some(desc),
            VariableTypeView::EdgeNonDirectional { desc, .. } => Some(desc),
            _ => None,
        }
    }

    /// The type of an attribute.
    pub open spec fn attribute(self, attr: Seq<char>) -> SimpleTypeView
        decreases self,
    {
        match self {
            VariableTypeView::Node(d) => d.props.get(attr),
            VariableTypeView::EdgeDirectional { desc, .. } => desc.props.get(attr),
            VariableTypeView::EdgeNonDirectional { desc, .. } => desc.props.get(attr),
            VariableTypeView::Union(a, b) => a.attribute(attr).union(b.attribute(attr)),
            VariableTypeView::Group(t) => SimpleTypeView::Group(Box::new(t.attribute(attr))),
            _ => SimpleTypeView::Zero,
        }
    }

    /// A measure of the unions and groups in a type.
    pub open spec fn size(self) -> nat
        decreases self,
    {
        match self {
            VariableTypeView::Union(a, b) => 1 + a.size() + b.size(),
            VariableTypeView::Group(t) => 1 + t.size(),
            _ => 1,
        }
    }

    /// Least upper bound: bottom is neutral and equal types collapse.
    pub open spec fn join(self, other: VariableTypeView) -> VariableTypeView {
        if self is Zero {
            other
        } else if other is Zero {
            self
        } else if self == other {
            self
        } else {
            VariableTypeView::Union(Box::new(self), Box::new(other))
        }
    }

    /// The join of a list, from the left.
    pub open spec fn join_all(types: Seq<VariableTypeView>) -> VariableTypeView
        decreases types.len(),
    {
        if types.len() == 0 {
            VariableTypeView::Zero
        } else {
            VariableTypeView::join_all(types.drop_last()).join(types.last())
        }
    }

    /// Greatest lower bound. Unions distribute, an undirected edge is met in
    /// both orientations, and types of different kinds have nothing in common.
    pub open spec fn meet(self, other: VariableTypeView) -> VariableTypeView
        decreases self.size() + other.size(),
    {
        match (self, other) {
            (VariableTypeView::Group(a), VariableTypeView::Group(b)) => VariableTypeView::Group(
                Box::new(a.meet(*b)),
            ),
            (VariableTypeView::Node(a), VariableTypeView::Node(b)) => VariableTypeView::Node(
                a.meet(b),
            ),
            (
                VariableTypeView::EdgeDirectional { desc: d1, left: l1, right: r1 },
                VariableTypeView::EdgeDirectional { desc: d2, left: l2, right: r2 },
            ) => match edge_meet(d1, *l1, *r1, d2, *l2, *r2) {
                Some((desc, left, right)) => VariableTypeView::EdgeDirectional {
                    desc,
                    left: Box::new(left),
                    right: Box::new(right),
                },
                None => VariableTypeView::Zero,
            },
            (
                VariableTypeView::EdgeNonDirectional { desc: d1, left: l1, right: r1 },
                VariableTypeView::EdgeNonDirectional { desc: d2, left: l2, right: r2 },
            ) => match (
                edge_meet(d1, *l1, *r1, d2, *l2, *r2),
                edge_meet(d1, *l1, *r1, d2, *r2, *l2),
            ) {
                (Some((da, la, ra)), Some((db, lb, rb))) => VariableTypeView::EdgeNonDirectional {
                    desc: da,
                    left: Box::new(la),
                    right: Box::new(ra),
                }.join(
                    VariableTypeView::EdgeNonDirectional {
                        desc: db,
                        left: Box::new(lb),
                        right: Box::new(rb),
                    },
                ),
                _ => VariableTypeView::Zero,
            },
            (VariableTypeView::Union(t1, t2), _) => t1.meet(other).join(t2.meet(other)),
            (_, VariableTypeView::Union(t1, t2)) => t1.meet(self).join(t2.meet(self)),
            (VariableTypeView::Null, VariableTypeView::Null) => VariableTypeView::Null,
            (VariableTypeView::Path, VariableTypeView::Path) => VariableTypeView::Path,
            _ => VariableTypeView::Zero,
        }
    }

    /// Subtyping.
    pub open spec fn subtype(self, other: VariableTypeView) -> bool
        decreases self, other,
    {
        match (self, other) {
            (VariableTypeView::Zero, _) => true,
            (VariableTypeView::Null, VariableTypeView::Null) => true,
            (VariableTypeView::Path, VariableTypeView::Path) => true,
            (VariableTypeView::Node(a), VariableTypeView::Node(b)) => a.subtype(b),
            (
                VariableTypeView::EdgeDirectional { desc: d1, left: l1, right: r1 },
                VariableTypeView::EdgeDirectional { desc: d2, left: l2, right: r2 },
            ) => edge_subtype(d1, *l1, *r1, d2, *l2, *r2),
            (
                VariableTypeView::EdgeNonDirectional { desc: d1, left: l1, right: r1 },
                VariableTypeView::EdgeNonDirectional { desc: d2, left: l2, right: r2 },
            ) => edge_subtype(d1, *l1, *r1, d2, *l2, *r2) || edge_subtype(
                d1,
                *l1,
                *r1,
                d2,
                *r2,
                *l2,
            ),
            (VariableTypeView::Group(a), VariableTypeView::Group(b)) => a.subtype(*b),
            (VariableTypeView::Union(a, b), _) => a.subtype(other) || b.subtype(other),
            (_, VariableTypeView::Union(a, b)) => self.subtype(*a) || self.subtype(*b),
            _ => false,
        }
    }

    /// Whether no element can have the type.
    pub open spec fn is_empty(self) -> bool
        decreases self,
    {
        match self {
            VariableTypeView::Zero => true,
            VariableTypeView::Node(d) => d.is_empty(),
            VariableTypeView::EdgeDirectional { desc, left, right } => desc.is_empty()
                || left.is_empty() || right.is_empty(),
            VariableTypeView::EdgeNonDirectional { desc, left, right } => desc.is_empty()
                || left.is_empty() || right.is_empty(),
            VariableTypeView::Union(a, b) => a.is_empty() && b.is_empty(),
            VariableTypeView::Group(t) => t.is_empty(),
            VariableTypeView::Null => false,
            VariableTypeView::Path => false,
        }
    }

    /// The descriptors of the nodes in a union, from left to right.
    pub open spec fn node_leaves(self) -> Seq<DescriptorTypeView>
        decreases self,
    {
        match self {
            VariableTypeView::Node(d) => seq![d],
            VariableTypeView::Union(a, b) => a.node_leaves() + b.node_leaves(),
            _ => Seq::empty(),
        }
    }

    /// The printed form.
    pub open spec fn text(self) -> Seq<char>
        decreases self,
    {
        match self {
            VariableTypeView::Node(d) => "⸨"@ + d.text() + "⸩"@,
            VariableTypeView::EdgeDirectional { desc, left, right } => left.text() + "-["@
                + desc.text() + "]->"@ + right.text(),
            VariableTypeView::EdgeNonDirectional { desc, left, right } => left.text() + "-["@
                + desc.text() + "]-"@ + right.text(),
            VariableTypeView::Union(a, b) => a.text() + " + "@ + b.text(),
            VariableTypeView::Group(t) => "group<"@ + t.text() + ">"@,
            VariableTypeView::Null => "Null"@,
            VariableTypeView::Path => "path"@,
            VariableTypeView::Zero => "⊥"@,
        }
    }
}

/// The node and edge types that a schema admits.
pub struct SchemaView {
    pub nodes: Seq<VariableTypeView>,
    pub edges: Seq<VariableTypeView>,
}

/// The entries that are subtypes of `query`, each met with it, in order.
pub open spec fn matching(entries: Seq<VariableTypeView>, query: VariableTypeView) -> Seq<
    VariableTypeView,
>
    decreases entries.len(),
{
    if entries.len() == 0 {
        Seq::empty()
    } else {
        let rest = matching(entries.drop_last(), query);
        if entries.last().subtype(query) {
            rest.push(entries.last().meet(query))
        } else {
            rest
        }
    }
}

impl SchemaView {
    /// The schema that admits everything.
    pub open spec fn star() -> SchemaView {
        SchemaView {
            nodes: seq![VariableTypeView::node_star()],
            edges: seq![
                VariableTypeView::edge_directional(DescriptorTypeView::star()),
                VariableTypeView::edge_non_directional(DescriptorTypeView::star()),
            ],
        }
    }

    /// What a type stands for under the schema: for a node or an edge, the
    /// join of the matching entries.
    pub open spec fn refine(self, t: VariableTypeView) -> VariableTypeView
        decreases t,
    {
        match t {
            VariableTypeView::Node(_) => VariableTypeView::join_all(matching(self.nodes, t)),
            VariableTypeView::EdgeDirectional { .. } => VariableTypeView::join_all(
                matching(self.edges, t),
            ),
            VariableTypeView::EdgeNonDirectional { .. } => VariableTypeView::join_all(
                matching(self.edges, t),
            ),
            VariableTypeView::Union(a, b) => self.refine(*a).join(self.refine(*b)),
            VariableTypeView::Group(a) => VariableTypeView::Group(Box::new(self.refine(*a))),
            VariableTypeView::Null => VariableTypeView::Null,
            VariableTypeView::Path => VariableTypeView::Path,
            VariableTypeView::Zero => VariableTypeView::Zero,
        }
    }

    /// The node descriptors that two descriptors can have in common.
    pub open spec fn junction(self, a: DescriptorTypeView, b: DescriptorTypeView) -> Seq<
        DescriptorTypeView,
    > {
        self.refine(VariableTypeView::Node(a.meet(b))).node_leaves()
    }
}

impl Clone for VariableType {
    fn clone(&self) -> (r: Self)
        ensures
            r@ == self@,
        decreases self,
    {
        match self {
            VariableType::Node(d) => VariableType::Node(d.clone()),
            VariableType::EdgeDirectional { desc, left, right } => VariableType::EdgeDirectional {
                desc: desc.clone(),
                left: Box::new((**left).clone()),
                right: Box::new((**right).clone()),
            },
            VariableType::EdgeNonDirectional { desc, left, right } =>
                VariableType::EdgeNonDirectional {
                desc: desc.clone(),
                left: Box::new((**left).clone()),
                right: Box::new((**right).clone()),
            },
            VariableType::Union(a, b) => VariableType::Union(
                Box::new((**a).clone()),
                Box::new((**b).clone()),
            ),
            VariableType::Group(t) => VariableType::Group(Box::new((**t).clone())),
            VariableType::Null => VariableType::Null,
            VariableType::Path => VariableType::Path,
            VariableType::Zero => VariableType::Zero,
        }
    }
}

impl VariableType {
    /// The value.
    pub open spec fn view(&self) -> VariableTypeView
        decreases self,
    {
        match self {
            VariableType::Node(d) => VariableTypeView::Node(d@),
            VariableType::EdgeDirectional { desc, left, right } =>
                VariableTypeView::EdgeDirectional {
                desc: desc@,
                left: Box::new(left.view()),
                right: Box::new(right.view()),
            },
            VariableType::EdgeNonDirectional { desc, left, right } =>
                VariableTypeView::EdgeNonDirectional {
                desc: desc@,
                left: Box::new(left.view()),
                right: Box::new(right.view()),
            },
            VariableType::Union(a, b) => VariableTypeView::Union(
                Box::new(a.view()),
                Box::new(b.view()),
            ),
            VariableType::Group(t) => VariableTypeView::Group(Box::new(t.view())),
            VariableType::Null => VariableTypeView::Null,
            VariableType::Path => VariableTypeView::Path,
            VariableType::Zero => VariableTypeView::Zero,
        }
    }

    /// Any node.
    pub fn node_star() -> (r: Self)
        ensures
            r@ == VariableTypeView::node_star(),
    {
        VariableType::Node(DescriptorType::star())
    }

    /// A directed edge between any nodes.
    pub fn edge_directional(desc: DescriptorType) -> (r: Self)
        ensures
            r@ == VariableTypeView::edge_directional(desc@),
    {
        let left = VariableType::node_star();
        let right = VariableType::node_star();
        VariableType::EdgeDirectional { desc, left: Box::new(left), right: Box::new(right) }
    }

    /// An undirected edge between any nodes.
    pub fn edge_non_directional(desc: DescriptorType) -> (r: Self)
        ensures
            r@ == VariableTypeView::edge_non_directional(desc@),
    {
        let left = VariableType::node_star();
        let right = VariableType::node_star();
        VariableType::EdgeNonDirectional { desc, left: Box::new(left), right: Box::new(right) }
    }

    /// Whether two types are equal.
    pub fn same(&self, other: &VariableType) -> (r: bool)
        ensures
            r == (self@ == other@),
        decreases self,
    {
        match (self, other) {
            (VariableType::Node(a), VariableType::Node(b)) => a.same(b),
            (
                VariableType::EdgeDirectional { desc: d1, left: l1, right: r1 },
                VariableType::EdgeDirectional { desc: d2, left: l2, right: r2 },
            ) => d1.same(d2) && l1.same(l2) && r1.same(r2),
            (
                VariableType::EdgeNonDirectional { desc: d1, left: l1, right: r1 },
                VariableType::EdgeNonDirectional { desc: d2, left: l2, right: r2 },
            ) => d1.same(d2) && l1.same(l2) && r1.same(r2),
            (VariableType::Union(a, b), VariableType::Union(c, d)) => a.same(c) && b.same(d),
            (VariableType::Group(a), VariableType::Group(b)) => a.same(b),
            (VariableType::Null, VariableType::Null) => true,
            (VariableType::Path, VariableType::Path) => true,
            (VariableType::Zero, VariableType::Zero) => true,
            _ => false,
        }
    }

    /// The descriptor of a node or an edge.
    pub fn descriptor(&self) -> (r: Option<&DescriptorType>)
        ensures
            match r {
                Some(d) => self@.descriptor() == Some(d@),
                None => self@.descriptor() is None,
            },
    {
        match self {
            VariableType::Node(d) => Some(d),
            VariableType::EdgeDirectional { desc, .. } => Some(desc),
            VariableType::EdgeNonDirectional { desc, .. } => Some(desc),
            _ => None,
        }
    }

    /// The type of an attribute.
    pub fn get_attribute(&self, attr: &str) -> (r: SimpleType)
        ensures
            r@ == self@.attribute(attr@),
        decreases self,
    {
        match self {
            VariableType::Node(d) => d.props.get(attr),
            VariableType::EdgeDirectional { desc, .. } => desc.props.get(attr),
            VariableType::EdgeNonDirectional { desc, .. } => desc.props.get(attr),
            VariableType::Union(t1, t2) => {
                let a = t1.get_attribute(attr);
                let b = t2.get_attribute(attr);
                SimpleType::union(&a, &b)
            },
            VariableType::Group(t) => SimpleType::Group(Box::new(t.get_attribute(attr))),
            VariableType::Null => SimpleType::Zero,
            VariableType::Path => SimpleType::Zero,
            VariableType::Zero => SimpleType::Zero,
        }
    }

    /// The meet of two edges in one orientation.
    fn meet_edges(
        d1: &DescriptorType,
        l1: &VariableType,
        r1: &VariableType,
        d2: &DescriptorType,
        l2: &VariableType,
        r2: &VariableType,
    ) -> (r: Option<(DescriptorType, VariableType, VariableType)>)
        ensures
            match r {
                Some((d, a, b)) => edge_meet(d1@, l1@, r1@, d2@, l2@, r2@) == Some((d@, a@, b@)),
                None => edge_meet(d1@, l1@, r1@, d2@, l2@, r2@) is None,
            },
    {
        let left = match (l1, l2) {
            (VariableType::Node(a), VariableType::Node(b)) => DescriptorType::meet(a, b),
            _ => {
                return None;
            },
        };
        let right = match (r1, r2) {
            (VariableType::Node(a), VariableType::Node(b)) => DescriptorType::meet(a, b),
            _ => {
                return None;
            },
        };
        Some((DescriptorType::meet(d1, d2), VariableType::Node(left), VariableType::Node(right)))
    }

    /// Greatest lower bound.
    pub fn meet(a: &VariableType, b: &VariableType) -> (r: VariableType)
        ensures
            r@ == a@.meet(b@),
        decreases a@.size() + b@.size(),
    {
        match (a, b) {
            (VariableType::Group(ta), VariableType::Group(tb)) => VariableType::Group(
                Box::new(VariableType::meet(ta, tb)),
            ),
            (VariableType::Node(da), VariableType::Node(db)) => VariableType::Node(
                DescriptorType::meet(da, db),
            ),
            (
                VariableType::EdgeDirectional { desc: d1, left: l1, right: r1 },
                VariableType::EdgeDirectional { desc: d2, left: l2, right: r2 },
            ) => match VariableType::meet_edges(d1, l1, r1, d2, l2, r2) {
                Some((desc, left, right)) => VariableType::EdgeDirectional {
                    desc,
                    left: Box::new(left),
                    right: Box::new(right),
                },
                None => VariableType::Zero,
            },
            (
                VariableType::EdgeNonDirectional { desc: d1, left: l1, right: r1 },
                VariableType::EdgeNonDirectional { desc: d2, left: l2, right: r2 },
            ) => {
                let n1 = VariableType::meet_edges(d1, l1, r1, d2, l2, r2);
                let n2 = VariableType::meet_edges(d1, l1, r1, d2, r2, l2);
                match (n1, n2) {
                    (Some((da, la, ra)), Some((db, lb, rb))) => VariableType::join(
                        VariableType::EdgeNonDirectional {
                            desc: da,
                            left: Box::new(la),
                            right: Box::new(ra),
                        },
                        VariableType::EdgeNonDirectional {
                            desc: db,
                            left: Box::new(lb),
                            right: Box::new(rb),
                        },
                    ),
                    _ => VariableType::Zero,
                }
            },
            (VariableType::Union(t1, t2), _) => {
                let r1 = VariableType::meet(t1, b);
                let r2 = VariableType::meet(t2, b);
                VariableType::join(r1, r2)
            },
            (_, VariableType::Union(t1, t2)) => {
                let r1 = VariableType::meet(t1, a);
                let r2 = VariableType::meet(t2, a);
                VariableType::join(r1, r2)
            },
            (VariableType::Null, VariableType::Null) => VariableType::Null,
            (VariableType::Path, VariableType::Path) => VariableType::Path,
            _ => VariableType::Zero,
        }
    }

    /// Least upper bound.
    pub fn join(a: VariableType, b: VariableType) -> (r: VariableType)
        ensures
            r@ == a@.join(b@),
    {
        if let VariableType::Zero = a {
            return b;
        }
        if let VariableType::Zero = b {
            return a;
        }
        if a.same(&b) {
            return a;
        }
        VariableType::Union(Box::new(a), Box::new(b))
    }

    /// The join of a list, from the left; bottom for the empty list.
    pub fn join_from_list(types: Vec<VariableType>) -> (r: VariableType)
        ensures
            r@ == VariableTypeView::join_all(type_views(types@)),
    {
        let mut acc = VariableType::Zero;
        let mut i: usize = 0;
        while i < types.len()
            invariant
                i <= types.len(),
                acc@ == VariableTypeView::join_all(type_views(types@).take(i as int)),
            decreases types.len() - i,
        {
            proof {
                let next = type_views(types@).take(i + 1);
                assert(next.drop_last() =~= type_views(types@).take(i as int));
            }
            acc = VariableType::join(acc, types[i].clone());
            i = i + 1;
        }
        assert(type_views(types@).take(i as int) =~= type_views(types@));
        acc
    }

    /// Subtyping of node endpoints.
    fn node_endpoint_subtype(a: &VariableType, b: &VariableType) -> (r: bool)
        ensures
            r == (a@ is Node && b@ is Node && a@->Node_0.subtype(b@->Node_0)),
    {
        match (a, b) {
            (VariableType::Node(x), VariableType::Node(y)) => DescriptorType::is_subtype(x, y),
            _ => false,
        }
    }

    /// Subtyping of two edges in one orientation.
    fn edge_directional_subtype(
        d1: &DescriptorType,
        l1: &VariableType,
        r1: &VariableType,
        d2: &DescriptorType,
        l2: &VariableType,
        r2: &VariableType,
    ) -> (r: bool)
        ensures
            r == edge_subtype(d1@, l1@, r1@, d2@, l2@, r2@),
    {
        DescriptorType::is_subtype(d1, d2) && VariableType::node_endpoint_subtype(l1, l2)
            && VariableType::node_endpoint_subtype(r1, r2)
    }

    /// Subtyping.
    pub fn is_subtype(t1: &VariableType, t2: &VariableType) -> (r: bool)
        ensures
            r == t1@.subtype(t2@),
        decreases t1, t2,
    {
        match (t1, t2) {
            (VariableType::Zero, _) => true,
            (VariableType::Null, VariableType::Null) => true,
            (VariableType::Path, VariableType::Path) => true,
            (VariableType::Node(a), VariableType::Node(b)) => DescriptorType::is_subtype(a, b),
            (
                VariableType::EdgeDirectional { desc: d1, left: l1, right: r1 },
                VariableType::EdgeDirectional { desc: d2, left: l2, right: r2 },
            ) => VariableType::edge_directional_subtype(d1, l1, r1, d2, l2, r2),
            (
                VariableType::EdgeNonDirectional { desc: d1, left: l1, right: r1 },
                VariableType::EdgeNonDirectional { desc: d2, left: l2, right: r2 },
            ) => VariableType::edge_directional_subtype(d1, l1, r1, d2, l2, r2)
                || VariableType::edge_directional_subtype(d1, l1, r1, d2, r2, l2),
            (VariableType::Group(a), VariableType::Group(b)) => VariableType::is_subtype(a, b),
            (VariableType::Union(a, b), _) => VariableType::is_subtype(a, t2)
                || VariableType::is_subtype(b, t2),
            (_, VariableType::Union(a, b)) => VariableType::is_subtype(t1, a)
                || VariableType::is_subtype(t1, b),
            _ => false,
        }
    }

    /// The node types in a union, from left to right.
    fn collect_nodes(t: &VariableType, out: &mut Vec<VariableType>)
        requires
            forall|i: int| 0 <= i < old(out)@.len() ==> (#[trigger] old(out)@[i])@ is Node,
        ensures
            forall|i: int| 0 <= i < final(out)@.len() ==> (#[trigger] final(out)@[i])@ is Node,
            node_descs(final(out)@) == node_descs(old(out)@) + t@.node_leaves(),
        decreases t,
    {
        let ghost before = out@;
        match t {
            VariableType::Node(_) => {
                out.push(t.clone());
                assert(node_descs(out@) =~= node_descs(before) + t@.node_leaves());
            },
            VariableType::Union(a, b) => {
                VariableType::collect_nodes(a, out);
                VariableType::collect_nodes(b, out);
                assert(node_descs(out@) =~= node_descs(before) + t@.node_leaves());
            },
            _ => {
                assert(node_descs(out@) =~= node_descs(before) + t@.node_leaves());
            },
        }
    }

    /// Refines a type and lists the node types that it can be.
    pub fn refine_to_nodes(schema: &Schema, t: &VariableType) -> (r: Vec<VariableType>)
        ensures
            forall|i: int| 0 <= i < r@.len() ==> (#[trigger] r@[i])@ is Node,
            node_descs(r@) == schema@.refine(t@).node_leaves(),
    {
        let refined = VariableType::refine_rc(schema, t);
        let mut out: Vec<VariableType> = Vec::new();
        VariableType::collect_nodes(&*refined, &mut out);
        assert(node_descs(out@) =~= schema@.refine(t@).node_leaves());
        out
    }

    /// What a type stands for under the schema.
    pub fn refine(schema: &Schema, node: &VariableType) -> (r: VariableType)
        ensures
            r@ == schema@.refine(node@),
        decreases node,
    {
        match node {
            VariableType::Node(_) => VariableType::join_from_list(schema.scan_matches(true, node)),
            VariableType::EdgeDirectional { .. } => VariableType::join_from_list(
                schema.scan_matches(false, node),
            ),
            VariableType::EdgeNonDirectional { .. } => VariableType::join_from_list(
                schema.scan_matches(false, node),
            ),
            VariableType::Union(t1, t2) => {
                let a = VariableType::refine(schema, t1);
                let b = VariableType::refine(schema, t2);
                VariableType::join(a, b)
            },
            VariableType::Group(t) => VariableType::Group(
                Box::new(VariableType::refine(schema, t)),
            ),
            VariableType::Null => VariableType::Null,
            VariableType::Path => VariableType::Path,
            VariableType::Zero => VariableType::Zero,
        }
    }

    /// `refine`, with a shared result.
    pub fn refine_rc(schema: &Schema, node: &VariableType) -> (r: Rc<VariableType>)
        ensures
            r@ == schema@.refine(node@),
    {
        Rc::new(VariableType::refine(schema, node))
    }

    /// Whether no element can have the type.
    pub fn is_empty(&self) -> (r: bool)
        ensures
            r == self@.is_empty(),
        decreases self,
    {
        match self {
            VariableType::Zero => true,
            VariableType::Node(d) => d.is_empty(),
            VariableType::EdgeDirectional { desc, left, right } => desc.is_empty()
                || left.is_empty() || right.is_empty(),
            VariableType::EdgeNonDirectional { desc, left, right } => desc.is_empty()
                || left.is_empty() || right.is_empty(),
            VariableType::Union(t1, t2) => t1.is_empty() && t2.is_empty(),
            VariableType::Group(t) => t.is_empty(),
            VariableType::Null => false,
            VariableType::Path => false,
        }
    }

    /// The printed form.
    pub fn to_string(&self) -> (r: String)
        ensures
            r@ == self@.text(),
        decreases self,
    {
        match self {
            VariableType::Node(d) => {
                let mut s = copy_text("⸨");
                s.append(d.to_string().as_str());
                s.append("⸩");
                s
            },
            VariableType::EdgeDirectional { desc, left, right } => {
                let mut s = left.to_string();
                s.append("-[");
                s.append(desc.to_string().as_str());
                s.append("]->");
                s.append(right.to_string().as_str());
                s
            },
            VariableType::EdgeNonDirectional { desc, left, right } => {
                let mut s = left.to_string();
                s.append("-[");
                s.append(desc.to_string().as_str());
                s.append("]-");
                s.append(right.to_string().as_str());
                s
            },
            VariableType::Union(t1, t2) => {
                let mut s = t1.to_string();
                s.append(" + ");
                s.append(t2.to_string().as_str());
                s
            },
            VariableType::Group(t) => {
                let mut s = copy_text("group<");
                s.append(t.to_string().as_str());
                s.append(">");
                s
            },
            VariableType::Null => copy_text("Null"),
            VariableType::Path => copy_text("path"),
            VariableType::Zero => copy_text("⊥"),
        }
    }
}

/// The descriptor of each node type.
pub open spec fn node_descs(v: Seq<VariableType>) -> Seq<DescriptorTypeView> {
    Seq::new(v.len(), |i: int| v[i]@->Node_0)
}

/// The node and edge types that a graph may hold, with a label index over
/// them. A schema does not change once it is built.
#[derive(Debug)]
pub struct Schema {
    nodes: Rc<Vec<VariableType>>,
    edges: Rc<Vec<VariableType>>,
    index: Rc<SchemaIndex>,
}

/// The matching entries of a prefix are unchanged by entries that do not match.
proof fn matching_skips(
    entries: Seq<VariableTypeView>,
    query: VariableTypeView,
    from: int,
    to: int,
)
    requires
        0 <= from <= to <= entries.len(),
        forall|i: int| from <= i < to ==> !(#[trigger] entries[i]).subtype(query),
    ensures
        matching(entries.take(to), query) == matching(entries.take(from), query),
    decreases to - from,
{
    if from < to {
        matching_skips(entries, query, from, to - 1);
        assert(entries.take(to).drop_last() =~= entries.take(to - 1));
    }
}

impl Schema {
    #[verifier::type_invariant]
    spec fn indexed(self) -> bool {
        self.index.covers(type_views(self.nodes@), type_views(self.edges@))
    }

    /// The value.
    pub closed spec fn view(&self) -> SchemaView {
        SchemaView { nodes: type_views(self.nodes@), edges: type_views(self.edges@) }
    }

    /// The schema that admits everything.
    pub fn star() -> (r: Self)
        ensures
            r@ == SchemaView::star(),
    {
        let mut nodes: Vec<VariableType> = Vec::new();
        nodes.push(VariableType::node_star());
        let mut edges: Vec<VariableType> = Vec::new();
        edges.push(VariableType::edge_directional(DescriptorType::star()));
        edges.push(VariableType::edge_non_directional(DescriptorType::star()));
        let ghost n = nodes@;
        let ghost e = edges@;
        let r = Schema::from_parts(nodes, edges);
        assert(type_views(n) =~= SchemaView::star().nodes);
        assert(type_views(e) =~= SchemaView::star().edges);
        r
    }

    /// A schema of the given entries.
    pub fn from_parts(nodes: Vec<VariableType>, edges: Vec<VariableType>) -> (r: Self)
        ensures
            r@ == (SchemaView { nodes: type_views(nodes@), edges: type_views(edges@) }),
    {
        let index = SchemaIndex::build(&nodes, &edges);
        Schema { nodes: Rc::new(nodes), edges: Rc::new(edges), index: Rc::new(index) }
    }

    /// The node types.
    pub fn nodes(&self) -> (r: &Vec<VariableType>)
        ensures
            type_views(r@) == self@.nodes,
    {
        &*self.nodes
    }

    /// The edge types.
    pub fn edges(&self) -> (r: &Vec<VariableType>)
        ensures
            type_views(r@) == self@.edges,
    {
        &*self.edges
    }

    /// A schema over the same entries.
    pub fn fresh_caches(&self) -> (r: Schema)
        ensures
            r@ == self@,
    {
        proof {
            use_type_invariant(self);
        }
        Schema {
            nodes: Rc::clone(&self.nodes),
            edges: Rc::clone(&self.edges),
            index: Rc::clone(&self.index),
        }
    }

    /// The entries that match `query`, met with it, in the order of entries.
    /// Where the label index can serve the query only its candidates are
    /// looked at, and the result is the same.
    pub(crate) fn scan_matches(&self, nodes: bool, query: &VariableType) -> (r: Vec<VariableType>)
        ensures
            type_views(r@) == matching(if nodes { self@.nodes } else { self@.edges }, query@),
    {
        proof {
            use_type_invariant(self);
        }
        let entries: &Vec<VariableType> = if nodes { self.nodes() } else { self.edges() };
        let ghost views = type_views(entries@);
        let total = entries.len();
        let mut out: Vec<VariableType> = Vec::new();
        let cands = match query.descriptor() {
            Some(d) => self.index.candidates(
                nodes,
                &d.label,
                Ghost(type_views(self.nodes@)),
                Ghost(type_views(self.edges@)),
            ),
            None => None,
        };
        match cands {
            Some(ids) => {
                proof {
                    assert forall|i: int| 0 <= i < ids@.len() implies (#[trigger] ids@[i])
                        < views.len() by {
                        assert(ids@.contains(ids@[i]));
                    }
                    assert forall|i: int|
                        0 <= i < views.len() && (#[trigger] views[i]).subtype(
                            query@,
                        ) implies exists|p: int| 0 <= p < ids@.len() && ids@[p] == i by {
                        super::schema_index::candidates_lose_no_match(views[i], query@);
                        let id: usize = i as usize;
                        assert(i < total);
                        assert(ids@.contains(id));
                    }
                }
                let ghost mut done: int = 0;
                let mut k: usize = 0;
                assert(type_views(out@) =~= matching(views.take(0), query@));
                while k < ids.len()
                    invariant
                        k <= ids.len(),
                        views == type_views(entries@),
                        0 <= done <= views.len(),
                        k > 0 ==> done == ids@[k - 1] + 1,
                        k == 0 ==> done == 0,
                        forall|i: int| 0 <= i < ids@.len() ==> (#[trigger] ids@[i]) < views.len(),
                        forall|i: int, j: int|
                            0 <= i < j < ids@.len() ==> #[trigger] ids@[i] < #[trigger] ids@[j],
                        forall|i: int|
                            0 <= i < views.len() && (#[trigger] views[i]).subtype(query@)
                                ==> exists|p: int| 0 <= p < ids@.len() && ids@[p] == i,
                        type_views(out@) == matching(views.take(done), query@),
                    decreases ids.len() - k,
                {
                    let id = ids[k];
                    let e = &entries[id];
                    proof {
                        assert forall|i: int| done <= i < id implies !(#[trigger] views[i]).subtype(
                            query@,
                        ) by {
                            if views[i].subtype(query@) {
                                let p = choose|p: int| 0 <= p < ids@.len() && ids@[p] == i;
                                if p >= k {
                                    assert(ids@[k as int] <= ids@[p]);
                                } else {
                                    assert(ids@[p] <= ids@[k - 1]);
                                }
                            }
                        }
                        matching_skips(views, query@, done, id as int);
                        assert(views.take(id + 1).drop_last() =~= views.take(id as int));
                    }
                    let ghost before = out@;
                    if VariableType::is_subtype(e, query) {
                        let m = VariableType::meet(e, query);
                        out.push(m);
                        assert(type_views(out@) =~= type_views(before).push(m@));
                    }
                    proof {
                        done = id + 1;
                    }
                    k = k + 1;
                }
                proof {
                    assert forall|i: int| done <= i < views.len() implies !(
                    #[trigger] views[i]).subtype(query@) by {
                        if views[i].subtype(query@) {
                            let p = choose|p: int| 0 <= p < ids@.len() && ids@[p] == i;
                            assert(ids@[p] <= ids@[k - 1]);
                        }
                    }
                    matching_skips(views, query@, done, views.len() as int);
                    assert(views.take(views.len() as int) =~= views);
                }
                out
            },
            None => {
                let mut i: usize = 0;
                assert(type_views(out@) =~= matching(views.take(0), query@));
                while i < entries.len()
                    invariant
                        i <= entries.len(),
                        views == type_views(entries@),
                        type_views(out@) == matching(views.take(i as int), query@),
                    decreases entries.len() - i,
                {
                    let e = &entries[i];
                    assert(views.take(i + 1).drop_last() =~= views.take(i as int));
                    let ghost before = out@;
                    if VariableType::is_subtype(e, query) {
                        let m = VariableType::meet(e, query);
                        out.push(m);
                        assert(type_views(out@) =~= type_views(before).push(m@));
                    }
                    i = i + 1;
                }
                assert(views.take(i as int) =~= views);
                out
            },
        }
    }
}

/// Every descriptor is empty.
pub open spec fn all_empty(ds: Seq<DescriptorTypeView>) -> bool {
    forall|i: int| 0 <= i < ds.len() ==> (#[trigger] ds[i]).is_empty()
}

impl VariableTypeView {
    /// Every node of a meet with an empty node type is empty.
    proof fn empty_meet_leaves(self, q: DescriptorTypeView)
        requires
            q.is_empty(),
        ensures
            all_empty(self.meet(VariableTypeView::Node(q)).node_leaves()),
        decreases self,
    {
        let n = VariableTypeView::Node(q);
        match self {
            VariableTypeView::Node(d) => {
                DescriptorTypeView::empty_meet(d, q);
                assert(self.meet(n) == VariableTypeView::Node(d.meet(q)));
                assert(self.meet(n).node_leaves() =~= seq![d.meet(q)]);
            },
            VariableTypeView::Union(a, b) => {
                a.empty_meet_leaves(q);
                b.empty_meet_leaves(q);
                assert(self.meet(n) == a.meet(n).join(b.meet(n)));
                a.meet(n).join_leaves(b.meet(n));
            },
            _ => {
                assert(self.meet(n) is Zero);
                assert(self.meet(n).node_leaves() =~= Seq::empty());
            },
        }
    }

    /// The nodes of a join are among the nodes of its operands.
    proof fn join_leaves(self, other: VariableTypeView)
        ensures
            all_empty(self.node_leaves()) && all_empty(other.node_leaves()) ==> all_empty(
                self.join(other).node_leaves(),
            ),
    {
        if !(self is Zero) && !(other is Zero) && self != other {
            let u = self.join(other);
            assert(u.node_leaves() == self.node_leaves() + other.node_leaves());
        }
    }

    /// Where every operand has only empty nodes, so has the join.
    proof fn empty_join_leaves(types: Seq<VariableTypeView>)
        requires
            forall|i: int| 0 <= i < types.len() ==> all_empty((#[trigger] types[i]).node_leaves()),
        ensures
            all_empty(VariableTypeView::join_all(types).node_leaves()),
        decreases types.len(),
    {
        if types.len() > 0 {
            let rest = types.drop_last();
            VariableTypeView::empty_join_leaves(rest);
            VariableTypeView::join_all(rest).join_leaves(types.last());
        } else {
            assert(VariableTypeView::join_all(types).node_leaves() =~= Seq::empty());
        }
    }
}

/// Every node of the entries that match an empty node type is empty.
proof fn empty_matching_leaves(entries: Seq<VariableTypeView>, q: DescriptorTypeView)
    requires
        q.is_empty(),
    ensures
        forall|i: int|
            0 <= i < matching(entries, VariableTypeView::Node(q)).len() ==> all_empty(
                (#[trigger] matching(entries, VariableTypeView::Node(q))[i]).node_leaves(),
            ),
    decreases entries.len(),
{
    if entries.len() > 0 {
        let n = VariableTypeView::Node(q);
        let rest = matching(entries.drop_last(), n);
        empty_matching_leaves(entries.drop_last(), q);
        entries.last().empty_meet_leaves(q);
        assert forall|i: int| 0 <= i < matching(entries, n).len() implies all_empty(
            (#[trigger] matching(entries, n)[i]).node_leaves(),
        ) by {
            if i < rest.len() {
                assert(matching(entries, n)[i] == rest[i]);
            }
        }
    }
}

impl SchemaView {
    /// An empty node type has only empty nodes in common with any other.
    pub proof fn empty_junction(self, a: DescriptorTypeView, b: DescriptorTypeView)
        ensures
            a.is_empty() || b.is_empty() ==> forall|r: DescriptorTypeView| #[trigger]
                self.junction(a, b).contains(r) ==> r.is_empty(),
    {
        if a.is_empty() || b.is_empty() {
            DescriptorTypeView::empty_meet(a, b);
            let q = a.meet(b);
            empty_matching_leaves(self.nodes, q);
            VariableTypeView::empty_join_leaves(matching(self.nodes, VariableTypeView::Node(q)));
        }
    }
}

/// None of some node descriptors is empty.
pub open spec fn none_empty(ds: Seq<DescriptorTypeView>) -> bool {
    forall|i: int| 0 <= i < ds.len() ==> !(#[trigger] ds[i]).is_empty()
}

impl VariableTypeView {
    proof fn live_join_leaves(types: Seq<VariableTypeView>)
        requires
            forall|i: int| 0 <= i < types.len() ==> none_empty((#[trigger] types[i]).node_leaves()),
        ensures
            none_empty(VariableTypeView::join_all(types).node_leaves()),
        decreases types.len(),
    {
        if types.len() > 0 {
            let rest = types.drop_last();
            assert forall|i: int| 0 <= i < rest.len() implies none_empty(
                (#[trigger] rest[i]).node_leaves(),
            ) by {
                assert(none_empty(types[i].node_leaves()));
            }
            VariableTypeView::live_join_leaves(rest);
            assert(none_empty(types[types.len() - 1].node_leaves()));
        } else {
            assert(VariableTypeView::join_all(types).node_leaves() =~= Seq::empty());
        }
    }
}

proof fn live_matching_leaves(entries: Seq<VariableTypeView>, query: VariableTypeView)
    requires
        forall|i: int|
            0 <= i < entries.len() && (#[trigger] entries[i]).subtype(query) ==> none_empty(
                entries[i].meet(query).node_leaves(),
            ),
    ensures
        forall|i: int|
            0 <= i < matching(entries, query).len() ==> none_empty(
                (#[trigger] matching(entries, query)[i]).node_leaves(),
            ),
    decreases entries.len(),
{
    if entries.len() > 0 {
        let rest = entries.drop_last();
        assert forall|i: int|
            0 <= i < rest.len() && (#[trigger] rest[i]).subtype(query) implies none_empty(
            rest[i].meet(query).node_leaves(),
        ) by {
            assert(entries[i] == rest[i]);
        }
        live_matching_leaves(rest, query);
        assert(entries[entries.len() - 1] == entries.last());
        assert forall|i: int| 0 <= i < matching(entries, query).len() implies none_empty(
            (#[trigger] matching(entries, query)[i]).node_leaves(),
        ) by {
            if i < matching(rest, query).len() {
                assert(matching(entries, query)[i] == matching(rest, query)[i]);
            }
        }
    }
}

impl SchemaView {
    /// A node entry has something in common with every inhabited node type that
    /// it matches.
    pub open spec fn is_lively(self) -> bool {
        forall|i: int, d: DescriptorTypeView|
            0 <= i < self.nodes.len() && !d.is_empty() && #[trigger] self.nodes[i].subtype(
                VariableTypeView::Node(d),
            ) ==> none_empty(self.nodes[i].meet(VariableTypeView::Node(d)).node_leaves())
    }

    /// Every node entry is a node whose properties are firm or unknown.
    pub open spec fn is_settled(self) -> bool {
        forall|i: int|
            0 <= i < self.nodes.len() ==> (#[trigger] self.nodes[i]) is Node
                && self.nodes[i]->Node_0.props.is_settled()
    }

    /// Every node entry is a node with a closed record of firm properties.
    pub open spec fn is_closed_firm(self) -> bool {
        forall|i: int|
            0 <= i < self.nodes.len() ==> (#[trigger] self.nodes[i]) is Node
                && self.nodes[i]->Node_0.props.is_closed_firm()
    }

    /// Under a lively schema two node types with something in common are joined
    /// at no empty node.
    pub proof fn lively_junction(self, a: DescriptorTypeView, b: DescriptorTypeView)
        requires
            self.is_lively(),
            !a.meet(b).is_empty(),
        ensures
            forall|r: DescriptorTypeView| #[trigger]
                self.junction(a, b).contains(r) ==> !r.is_empty(),
    {
        let query = VariableTypeView::Node(a.meet(b));
        live_matching_leaves(self.nodes, query);
        VariableTypeView::live_join_leaves(matching(self.nodes, query));
    }

    /// A settled schema is lively.
    pub proof fn settled_lively(self)
        requires
            self.is_settled(),
        ensures
            self.is_lively(),
    {
        assert forall|i: int, d: DescriptorTypeView|
            0 <= i < self.nodes.len() && !d.is_empty() && #[trigger] self.nodes[i].subtype(
                VariableTypeView::Node(d),
            ) implies none_empty(
            self.nodes[i].meet(VariableTypeView::Node(d)).node_leaves(),
        ) by {
            let e = self.nodes[i]->Node_0;
            e.props.settled_meet(d.props);
            one_leaf(e.meet(d));
        }
    }

    /// The schema that allows anything is settled.
    pub proof fn star_settled()
        ensures
            SchemaView::star().is_settled(),
    {
    }

    /// Under a schema of closed records of firm properties no two node types are
    /// joined at an empty node.
    pub proof fn closed_firm_junction(self, a: DescriptorTypeView, b: DescriptorTypeView)
        requires
            self.is_closed_firm(),
        ensures
            forall|r: DescriptorTypeView| #[trigger]
                self.junction(a, b).contains(r) ==> !r.is_empty(),
    {
        let d = a.meet(b);
        let query = VariableTypeView::Node(d);
        assert forall|i: int|
            0 <= i < self.nodes.len() && (#[trigger] self.nodes[i]).subtype(
                query,
            ) implies none_empty(self.nodes[i].meet(query).node_leaves()) by {
            let e = self.nodes[i]->Node_0;
            e.props.closed_firm_meet(d.props);
            one_leaf(e.meet(d));
        }
        live_matching_leaves(self.nodes, query);
        VariableTypeView::live_join_leaves(matching(self.nodes, query));
    }
}

proof fn one_leaf(d: DescriptorTypeView)
    requires
        !d.is_empty(),
    ensures
        none_empty(VariableTypeView::Node(d).node_leaves()),
{
    assert(VariableTypeView::Node(d).node_leaves() =~= seq![d]);
}

impl VariableTypeView {
    /// Whether this is a node or an edge, with no contradiction in the
    /// properties of any part.
    pub open spec fn is_consistent(self) -> bool {
        match self {
            VariableTypeView::Node(d) => !(d.props is Zero),
            VariableTypeView::EdgeDirectional { desc, left, right } => consistent_edge(
                desc,
                *left,
                *right,
            ),
            VariableTypeView::EdgeNonDirectional { desc, left, right } => consistent_edge(
                desc,
                *left,
                *right,
            ),
            _ => false,
        }
    }
}

/// Whether an edge joins nodes, with no contradiction in the properties of any
/// part.
pub open spec fn consistent_edge(
    desc: DescriptorTypeView,
    left: VariableTypeView,
    right: VariableTypeView,
) -> bool {
    &&& !(desc.props is Zero)
    &&& left is Node && !(left->Node_0.props is Zero)
    &&& right is Node && !(right->Node_0.props is Zero)
}

/// Under the schema that allows anything, no consistent node or edge refines to
/// nothing.
pub proof fn star_refines(t: VariableTypeView)
    requires
        t.is_consistent(),
    ensures
        !(SchemaView::star().refine(t) is Zero),
{
    let star = SchemaView::star();
    reveal_with_fuel(matching, 3);
    reveal_with_fuel(VariableTypeView::join_all, 3);
    match t {
        VariableTypeView::Node(_) => {
            assert(star.nodes.drop_last() =~= Seq::<VariableTypeView>::empty());
            let m = star.nodes[0].meet(t);
            assert(matching(star.nodes, t) =~= seq![m]);
            assert(seq![m].drop_last() =~= Seq::<VariableTypeView>::empty());
        },
        VariableTypeView::EdgeDirectional { .. } => {
            let first = star.edges.drop_last();
            assert(first =~= seq![star.edges[0]]);
            assert(first.drop_last() =~= Seq::<VariableTypeView>::empty());
            let m = star.edges[0].meet(t);
            assert(matching(star.edges, t) =~= seq![m]);
            assert(seq![m].drop_last() =~= Seq::<VariableTypeView>::empty());
        },
        _ => {
            let first = star.edges.drop_last();
            assert(first =~= seq![star.edges[0]]);
            assert(first.drop_last() =~= Seq::<VariableTypeView>::empty());
            let m = star.edges[1].meet(t);
            assert(matching(star.edges, t) =~= seq![m]);
            assert(seq![m].drop_last() =~= Seq::<VariableTypeView>::empty());
        },
    }
}

} // verus!
