//! Descriptor types: a label constraint together with a property constraint.

use vstd::prelude::*;

use super::label_type::{LabelType, LabelTypeView};
use super::property_type::{PropertyType, PropertyTypeView};
use super::simple_type::SimpleTypeView;
use crate::text::copy_text;

verus! {

/// The type of a node or of an edge.
#[derive(Debug, PartialEq, Eq)]
pub struct DescriptorType {
    pub label: LabelType,
    pub props: PropertyType,
}

/// The value of a `DescriptorType`.
pub struct DescriptorTypeView {
    pub label: LabelTypeView,
    pub props: PropertyTypeView,
}

impl DescriptorTypeView {
    /// Any labels and any properties.
    pub open spec fn star() -> DescriptorTypeView {
        DescriptorTypeView {
            label: LabelTypeView::Star,
            props: PropertyTypeView::Open(Map::empty()),
        }
    }

    pub open spec fn meet(self, other: DescriptorTypeView) -> DescriptorTypeView {
        DescriptorTypeView {
            label: self.label.meet(other.label),
            props: self.props.meet(other.props),
        }
    }

    pub open spec fn subtype(self, other: DescriptorTypeView) -> bool {
        self.label.subtype(other.label) && self.props.subtype(other.props)
    }

    /// Labels are never empty, so emptiness comes from the properties.
    pub open spec fn is_empty(self) -> bool {
        self.props.is_empty()
    }

    /// The printed form; the unconstrained descriptor is a lone star.
    pub open spec fn text(self) -> Seq<char> {
        if self.label is Star && self.props is Open && self.props->Open_0 == Map::<
            Seq<char>,
            SimpleTypeView,
        >::empty() {
            "*"@
        } else {
            self.label.text() + " "@ + self.props.text()
        }
    }
}

impl DescriptorTypeView {
    /// An empty descriptor stays empty under a meet.
    pub proof fn empty_meet(a: DescriptorTypeView, b: DescriptorTypeView)
        requires
            a.is_empty() || b.is_empty(),
        ensures
            a.meet(b).is_empty(),
    {
        PropertyTypeView::empty_meet(a.props, b.props);
    }
}

impl Clone for DescriptorType {
    fn clone(&self) -> (r: Self)
        ensures
            r@ == self@,
    {
        DescriptorType { label: self.label.clone(), props: self.props.clone() }
    }
}

impl DescriptorType {
    /// The value.
    pub open spec fn view(&self) -> DescriptorTypeView {
        DescriptorTypeView { label: self.label@, props: self.props@ }
    }

    /// A descriptor with both constraints.
    pub fn new(label: LabelType, props: PropertyType) -> (r: Self)
        ensures
            r.label == label,
            r.props == props,
            r@ == (DescriptorTypeView { label: label@, props: props@ }),
    {
        DescriptorType { label, props }
    }

    /// Any labels and any properties.
    pub fn star() -> (r: Self)
        ensures
            r@ == DescriptorTypeView::star(),
    {
        DescriptorType { label: LabelType::Star, props: PropertyType::open_empty() }
    }

    /// Whether two descriptors are equal.
    pub fn same(&self, other: &DescriptorType) -> (r: bool)
        ensures
            r == (self@ == other@),
    {
        self.label.same(&other.label) && self.props.same(&other.props)
    }

    /// Greatest lower bound, component by component.
    pub fn meet(a: &DescriptorType, b: &DescriptorType) -> (r: DescriptorType)
        ensures
            r@ == a@.meet(b@),
    {
        DescriptorType {
            label: LabelType::meet(&a.label, &b.label),
            props: PropertyType::meet(&a.props, &b.props),
        }
    }

    /// Subtyping, component by component.
    pub fn is_subtype(t1: &DescriptorType, t2: &DescriptorType) -> (r: bool)
        ensures
            r == t1@.subtype(t2@),
    {
        LabelType::is_subtype(&t1.label, &t2.label) && PropertyType::is_subtype(
            &t1.props,
            &t2.props,
        )
    }

    /// Whether no element can have the type.
    pub fn is_empty(&self) -> (r: bool)
        ensures
            r == self@.is_empty(),
    {
        LabelType::is_empty(&self.label) || self.props.is_empty()
    }

    /// The printed form.
    pub fn to_string(&self) -> (r: String)
        ensures
            r@ == self@.text(),
    {
        let plain = match (&self.label, &self.props) {
            (LabelType::Star, PropertyType::Open(m)) => {
                proof {
                    if m@ == Map::<Seq<char>, super::simple_type::SimpleType>::empty() {
                        assert(self@.props->Open_0 =~= Map::<Seq<char>, SimpleTypeView>::empty());
                    } else if self@.props->Open_0 == Map::<Seq<char>, SimpleTypeView>::empty() {
                        assert forall|k: Seq<char>| !m@.contains_key(k) by {
                            assert(!self@.props->Open_0.contains_key(k));
                        }
                        assert(m@ =~= Map::<Seq<char>, super::simple_type::SimpleType>::empty());
                    }
                }
                m.is_empty()
            },
            _ => false,
        };
        if plain {
            copy_text("*")
        } else {
            let mut s = self.label.to_string();
            s.append(" ");
            s.append(self.props.to_string().as_str());
            s
        }
    }
}

} // verus!
