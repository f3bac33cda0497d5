//! Property types: the record of attributes of a node or an edge.

use vstd::prelude::*;

use super::simple_type::{merge_fields, SimpleType, SimpleTypeView};
use crate::fields::{keys_within, same_keys, FieldMap};
use crate::text::{copy_text, join_texts};

verus! {

/// The attributes of a node or an edge.
#[derive(Debug, PartialEq, Eq)]
pub enum PropertyType {
    /// At least these attributes; any other has the unknown type.
    Open(FieldMap<SimpleType>),
    /// Exactly these attributes; any other has the bottom type.
    Closed(FieldMap<SimpleType>),
    /// Bottom: contradictory attributes.
    Zero,
}

/// The value of a `PropertyType`.
pub enum PropertyTypeView {
    Open(Map<Seq<char>, SimpleTypeView>),
    Closed(Map<Seq<char>, SimpleTypeView>),
    Zero,
}

/// Every attribute of `a` that `b` also has is a subtype there.
pub open spec fn shared_subtype(
    a: Map<Seq<char>, SimpleTypeView>,
    b: Map<Seq<char>, SimpleTypeView>,
) -> bool {
    forall|k: Seq<char>| #[trigger]
        a.contains_key(k) && b.contains_key(k) ==> a[k].subtype(b[k])
}

/// Some field has an empty type.
pub open spec fn some_field_empty(m: Map<Seq<char>, SimpleTypeView>) -> bool {
    exists|k: Seq<char>| #[trigger] m.contains_key(k) && m[k].is_empty()
}

impl PropertyTypeView {
    /// The type of one attribute.
    pub open spec fn get(self, attr: Seq<char>) -> SimpleTypeView {
        match self {
            PropertyTypeView::Open(m) => if m.contains_key(attr) {
                m[attr]
            } else {
                SimpleTypeView::Star
            },
            PropertyTypeView::Closed(m) => if m.contains_key(attr) {
                m[attr]
            } else {
                SimpleTypeView::Zero
            },
            PropertyTypeView::Zero => SimpleTypeView::Zero,
        }
    }

    /// Greatest lower bound. Closed records meet when their attributes
    /// coincide, an open one meets a closed one that has all of its
    /// attributes, and open ones always meet.
    pub open spec fn meet(self, other: PropertyTypeView) -> PropertyTypeView {
        match (self, other) {
            (PropertyTypeView::Closed(a), PropertyTypeView::Closed(b)) => if a.dom() == b.dom() {
                PropertyTypeView::Closed(super::simple_type::merged(a, b))
            } else {
                PropertyTypeView::Zero
            },
            (PropertyTypeView::Open(a), PropertyTypeView::Open(b)) => PropertyTypeView::Open(
                super::simple_type::merged(a, b),
            ),
            (PropertyTypeView::Open(a), PropertyTypeView::Closed(b)) => if a.dom().subset_of(
                b.dom(),
            ) {
                PropertyTypeView::Closed(super::simple_type::merged(a, b))
            } else {
                PropertyTypeView::Zero
            },
            (PropertyTypeView::Closed(a), PropertyTypeView::Open(b)) => if b.dom().subset_of(
                a.dom(),
            ) {
                PropertyTypeView::Closed(super::simple_type::merged(b, a))
            } else {
                PropertyTypeView::Zero
            },
            _ => PropertyTypeView::Zero,
        }
    }

    /// Subtyping. Two open records are compared on the attributes they share.
    pub open spec fn subtype(self, other: PropertyTypeView) -> bool {
        match (self, other) {
            (PropertyTypeView::Zero, _) => true,
            (PropertyTypeView::Open(a), PropertyTypeView::Open(b)) => shared_subtype(a, b),
            (PropertyTypeView::Closed(a), PropertyTypeView::Closed(b)) => a.dom() == b.dom()
                && shared_subtype(a, b),
            (PropertyTypeView::Closed(a), PropertyTypeView::Open(b)) => b.dom().subset_of(a.dom())
                && shared_subtype(a, b),
            (PropertyTypeView::Open(a), PropertyTypeView::Closed(b)) => a.dom().subset_of(b.dom())
                && shared_subtype(a, b),
            _ => false,
        }
    }

    /// Whether some attribute can have no value.
    pub open spec fn is_empty(self) -> bool {
        match self {
            PropertyTypeView::Open(m) => some_field_empty(m),
            PropertyTypeView::Closed(m) => some_field_empty(m),
            PropertyTypeView::Zero => true,
        }
    }

    /// The printed form.
    pub open spec fn text(self) -> Seq<char> {
        match self {
            PropertyTypeView::Open(m) => if m == Map::<Seq<char>, SimpleTypeView>::empty() {
                "{*}"@
            } else {
                "{"@ + crate::text::joined(SimpleTypeView::field_texts(m, ":"@), ","@) + ",*}"@
            },
            PropertyTypeView::Closed(m) => if m == Map::<Seq<char>, SimpleTypeView>::empty() {
                "{}"@
            } else {
                "{"@ + crate::text::joined(SimpleTypeView::field_texts(m, ":"@), ","@) + "}"@
            },
            PropertyTypeView::Zero => "⊥"@,
        }
    }
}

/// A map with an empty type stays one when it is merged.
proof fn empty_merged(a: Map<Seq<char>, SimpleTypeView>, b: Map<Seq<char>, SimpleTypeView>)
    requires
        some_field_empty(a) || some_field_empty(b),
    ensures
        some_field_empty(super::simple_type::merged(a, b)),
{
    let m = super::simple_type::merged(a, b);
    if some_field_empty(a) {
        let k = choose|k: Seq<char>| #[trigger] a.contains_key(k) && a[k].is_empty();
        if b.contains_key(k) {
            SimpleTypeView::empty_meet(a[k], b[k]);
        }
        assert(m.contains_key(k) && m[k].is_empty());
    } else {
        let k = choose|k: Seq<char>| #[trigger] b.contains_key(k) && b[k].is_empty();
        if a.contains_key(k) {
            SimpleTypeView::empty_meet(a[k], b[k]);
        }
        assert(m.contains_key(k) && m[k].is_empty());
    }
}

/// Every field is firm.
pub open spec fn fields_firm(m: Map<Seq<char>, SimpleTypeView>) -> bool {
    forall|k: Seq<char>| #[trigger] m.contains_key(k) ==> m[k].is_firm()
}

/// Every field is firm or unknown.
pub open spec fn fields_settled(m: Map<Seq<char>, SimpleTypeView>) -> bool {
    forall|k: Seq<char>| #[trigger] m.contains_key(k) ==> m[k] is Star || m[k].is_firm()
}

impl PropertyTypeView {
    /// A record whose fields are firm or unknown.
    pub open spec fn is_settled(self) -> bool {
        match self {
            PropertyTypeView::Open(m) => fields_settled(m),
            PropertyTypeView::Closed(m) => fields_settled(m),
            PropertyTypeView::Zero => false,
        }
    }

    /// A closed record whose fields are firm.
    pub open spec fn is_closed_firm(self) -> bool {
        self is Closed && fields_firm(self->Closed_0)
    }

    /// A settled record has values in common with every inhabited one that it is
    /// a subtype of.
    pub proof fn settled_meet(self, other: PropertyTypeView)
        requires
            self.is_settled(),
            self.subtype(other),
            !other.is_empty(),
        ensures
            !self.meet(other).is_empty(),
    {
        match (self, other) {
            (PropertyTypeView::Open(a), PropertyTypeView::Open(b)) => settled_merged(a, b),
            (PropertyTypeView::Open(a), PropertyTypeView::Closed(b)) => settled_merged(a, b),
            (PropertyTypeView::Closed(a), PropertyTypeView::Open(b)) => settled_merged(a, b),
            (PropertyTypeView::Closed(a), PropertyTypeView::Closed(b)) => settled_merged(a, b),
            _ => {},
        }
    }

    /// A closed record of firm fields has values in common with every record that
    /// it is a subtype of.
    pub proof fn closed_firm_meet(self, other: PropertyTypeView)
        requires
            self.is_closed_firm(),
            self.subtype(other),
        ensures
            !self.meet(other).is_empty(),
    {
        let a = self->Closed_0;
        match other {
            PropertyTypeView::Open(b) => firm_merged(a, b),
            PropertyTypeView::Closed(b) => firm_merged(a, b),
            _ => {},
        }
    }
}

/// Settled fields leave no field empty in what they share with inhabited ones.
proof fn settled_merged(a: Map<Seq<char>, SimpleTypeView>, b: Map<Seq<char>, SimpleTypeView>)
    requires
        fields_settled(a),
        shared_subtype(a, b),
        !some_field_empty(b),
    ensures
        !some_field_empty(super::simple_type::merged(a, b)),
        !some_field_empty(super::simple_type::merged(b, a)),
{
    assert forall|k: Seq<char>| #[trigger] a.contains_key(k) implies !a[k].is_empty() && (
    b.contains_key(k) ==> !a[k].meet(b[k]).is_empty() && !b[k].meet(a[k]).is_empty()) by {
        if !(a[k] is Star) {
            a[k].firm_inhabited();
        }
        if b.contains_key(k) {
            assert(!b[k].is_empty());
            if !(a[k] is Star) {
                a[k].firm_meet(b[k]);
            }
        }
    }
    let m = super::simple_type::merged(a, b);
    let n = super::simple_type::merged(b, a);
    assert forall|k: Seq<char>| #[trigger] m.contains_key(k) implies !m[k].is_empty() by {
        assert(a.contains_key(k) || b.contains_key(k));
    }
    assert forall|k: Seq<char>| #[trigger] n.contains_key(k) implies !n[k].is_empty() by {
        assert(a.contains_key(k) || b.contains_key(k));
    }
}

/// Firm fields that cover others leave no field empty in what they share.
proof fn firm_merged(a: Map<Seq<char>, SimpleTypeView>, b: Map<Seq<char>, SimpleTypeView>)
    requires
        fields_firm(a),
        shared_subtype(a, b),
        b.dom().subset_of(a.dom()),
    ensures
        !some_field_empty(super::simple_type::merged(a, b)),
        !some_field_empty(super::simple_type::merged(b, a)),
{
    assert forall|k: Seq<char>| #[trigger] a.contains_key(k) implies !a[k].is_empty() && (
    b.contains_key(k) ==> !a[k].meet(b[k]).is_empty() && !b[k].meet(a[k]).is_empty()) by {
        a[k].firm_inhabited();
        if b.contains_key(k) {
            a[k].firm_meet(b[k]);
        }
    }
    let m = super::simple_type::merged(a, b);
    let n = super::simple_type::merged(b, a);
    assert forall|k: Seq<char>| #[trigger] m.contains_key(k) implies !m[k].is_empty() by {
        assert(a.contains_key(k) || b.dom().contains(k));
        assert(a.contains_key(k));
    }
    assert forall|k: Seq<char>| #[trigger] n.contains_key(k) implies !n[k].is_empty() by {
        assert(a.contains_key(k) || b.dom().contains(k));
        assert(a.contains_key(k));
    }
}

impl PropertyTypeView {
    /// An empty property type stays empty under a meet.
    pub proof fn empty_meet(a: PropertyTypeView, b: PropertyTypeView)
        requires
            a.is_empty() || b.is_empty(),
        ensures
            a.meet(b).is_empty(),
    {
        match (a, b) {
            (PropertyTypeView::Closed(x), PropertyTypeView::Closed(y)) => empty_merged(x, y),
            (PropertyTypeView::Open(x), PropertyTypeView::Open(y)) => empty_merged(x, y),
            (PropertyTypeView::Open(x), PropertyTypeView::Closed(y)) => empty_merged(x, y),
            (PropertyTypeView::Closed(x), PropertyTypeView::Open(y)) => empty_merged(y, x),
            _ => {},
        }
    }
}

/// A copy of a map of types.
pub fn clone_fields(m: &FieldMap<SimpleType>) -> (r: FieldMap<SimpleType>)
    ensures
        super::simple_type::fields_view(r) == super::simple_type::fields_view(*m),
{
    let empty: FieldMap<SimpleType> = FieldMap::new();
    let r = merge_fields(m, &empty);
    assert(super::simple_type::fields_view(r) =~= super::simple_type::fields_view(*m));
    r
}

impl Clone for PropertyType {
    fn clone(&self) -> (r: Self)
        ensures
            r@ == self@,
    {
        match self {
            PropertyType::Open(m) => PropertyType::Open(clone_fields(m)),
            PropertyType::Closed(m) => PropertyType::Closed(clone_fields(m)),
            PropertyType::Zero => PropertyType::Zero,
        }
    }
}

/// Whether two maps of types are equal.
pub fn same_fields(a: &FieldMap<SimpleType>, b: &FieldMap<SimpleType>) -> (r: bool)
    ensures
        r == (super::simple_type::fields_view(*a) == super::simple_type::fields_view(*b)),
{
    proof {
        assert(super::simple_type::fields_view(*a).dom() =~= a@.dom());
        assert(super::simple_type::fields_view(*b).dom() =~= b@.dom());
    }
    if !same_keys(a, b) {
        return false;
    }
    let n = a.len();
    let mut i: usize = 0;
    while i < n
        invariant
            i <= n,
            n == a.keys().len(),
            a@.dom() == b@.dom(),
            a.keys().to_set() == a@.dom(),
            forall|j: int| 0 <= j < i ==> a@[#[trigger] a.keys()[j]]@ == b@[a.keys()[j]]@,
        decreases n - i,
    {
        let va = a.value_at(i);
        match b.get(a.key_at(i).as_str()) {
            Some(vb) => {
                if !va.same(vb) {
                    assert(super::simple_type::fields_view(*a)[a.keys()[i as int]] == va@);
                    assert(super::simple_type::fields_view(*b)[a.keys()[i as int]] == vb@);
                    return false;
                }
            },
            None => {
                return false;
            },
        }
        i = i + 1;
    }
    proof {
        assert forall|k: Seq<char>| a@.contains_key(k) implies a@[k]@ == b@[k]@ by {
            assert(a.keys().to_set().contains(k));
        }
        assert(super::simple_type::fields_view(*a) =~= super::simple_type::fields_view(*b));
    }
    true
}

/// Whether the attributes that both maps have are subtypes.
fn subtype_where_shared(a: &FieldMap<SimpleType>, b: &FieldMap<SimpleType>) -> (r: bool)
    ensures
        r == shared_subtype(
            super::simple_type::fields_view(*a),
            super::simple_type::fields_view(*b),
        ),
{
    let ghost fa = super::simple_type::fields_view(*a);
    let ghost fb = super::simple_type::fields_view(*b);
    let n = a.len();
    let mut i: usize = 0;
    while i < n
        invariant
            i <= n,
            n == a.keys().len(),
            fa == super::simple_type::fields_view(*a),
            fb == super::simple_type::fields_view(*b),
            a.keys().to_set() == a@.dom(),
            forall|j: int|
                0 <= j < i && fb.contains_key(#[trigger] a.keys()[j]) ==> fa[a.keys()[j]].subtype(
                    fb[a.keys()[j]],
                ),
        decreases n - i,
    {
        let va = a.value_at(i);
        match b.get(a.key_at(i).as_str()) {
            Some(vb) => {
                if !SimpleType::is_subtype(va, vb) {
                    assert(fa.contains_key(a.keys()[i as int]));
                    return false;
                }
            },
            None => {},
        }
        i = i + 1;
    }
    proof {
        assert forall|k: Seq<char>| #[trigger]
            fa.contains_key(k) && fb.contains_key(k) implies fa[k].subtype(fb[k]) by {
            assert(a.keys().to_set().contains(k));
        }
    }
    true
}

/// Whether some value of the map is an empty type.
fn some_empty(m: &FieldMap<SimpleType>) -> (r: bool)
    ensures
        r == some_field_empty(super::simple_type::fields_view(*m)),
{
    let ghost f = super::simple_type::fields_view(*m);
    let n = m.len();
    let mut i: usize = 0;
    while i < n
        invariant
            i <= n,
            n == m.keys().len(),
            f == super::simple_type::fields_view(*m),
            m.keys().to_set() == m@.dom(),
            forall|j: int| 0 <= j < i ==> !f[#[trigger] m.keys()[j]].is_empty(),
        decreases n - i,
    {
        if m.value_at(i).is_empty() {
            assert(f.contains_key(m.keys()[i as int]));
            return true;
        }
        i = i + 1;
    }
    proof {
        assert forall|k: Seq<char>| #[trigger] f.contains_key(k) implies !f[k].is_empty() by {
            assert(m.keys().to_set().contains(k));
        }
    }
    false
}

impl PropertyType {
    /// The value, with records as maps.
    pub open spec fn view(&self) -> PropertyTypeView {
        match self {
            PropertyType::Open(m) => PropertyTypeView::Open(super::simple_type::fields_view(*m)),
            PropertyType::Closed(m) => PropertyTypeView::Closed(
                super::simple_type::fields_view(*m),
            ),
            PropertyType::Zero => PropertyTypeView::Zero,
        }
    }

    /// Whether two property types are equal.
    pub fn same(&self, other: &PropertyType) -> (r: bool)
        ensures
            r == (self@ == other@),
    {
        match (self, other) {
            (PropertyType::Open(a), PropertyType::Open(b)) => same_fields(a, b),
            (PropertyType::Closed(a), PropertyType::Closed(b)) => same_fields(a, b),
            (PropertyType::Zero, PropertyType::Zero) => true,
            _ => false,
        }
    }

    /// Any attributes.
    pub fn open_empty() -> (r: Self)
        ensures
            r@ == PropertyTypeView::Open(Map::empty()),
    {
        let r = PropertyType::Open(FieldMap::new());
        assert(r@->Open_0 =~= Map::empty());
        r
    }

    /// No attributes.
    pub fn closed_empty() -> (r: Self)
        ensures
            r@ == PropertyTypeView::Closed(Map::empty()),
    {
        let r = PropertyType::Closed(FieldMap::new());
        assert(r@->Closed_0 =~= Map::empty());
        r
    }

    /// Adds an attribute, or replaces its type. Bottom stays bottom.
    pub fn extend(&mut self, attr: String, t: SimpleType)
        ensures
            match old(self)@ {
                PropertyTypeView::Open(m) => final(self)@ == PropertyTypeView::Open(
                    m.insert(attr@, t@),
                ),
                PropertyTypeView::Closed(m) => final(self)@ == PropertyTypeView::Closed(
                    m.insert(attr@, t@),
                ),
                PropertyTypeView::Zero => final(self)@ == PropertyTypeView::Zero,
            },
    {
        let ghost before = self@;
        match self {
            PropertyType::Open(m) => {
                m.insert(attr, t);
                assert(super::simple_type::fields_view(*m) =~= before->Open_0.insert(attr@, t@));
            },
            PropertyType::Closed(m) => {
                m.insert(attr, t);
                assert(super::simple_type::fields_view(*m) =~= before->Closed_0.insert(attr@, t@));
            },
            PropertyType::Zero => {},
        }
    }

    /// The type of an attribute.
    pub fn get(&self, attr: &str) -> (r: SimpleType)
        ensures
            r@ == self@.get(attr@),
    {
        match self {
            PropertyType::Open(m) => match m.get(attr) {
                Some(t) => t.clone(),
                None => SimpleType::Star,
            },
            PropertyType::Closed(m) => match m.get(attr) {
                Some(t) => t.clone(),
                None => SimpleType::Zero,
            },
            PropertyType::Zero => SimpleType::Zero,
        }
    }

    /// Greatest lower bound.
    pub fn meet(a: &PropertyType, b: &PropertyType) -> (r: PropertyType)
        ensures
            r@ == a@.meet(b@),
    {
        match (a, b) {
            (PropertyType::Closed(ma), PropertyType::Closed(mb)) => {
                proof {
                    assert(super::simple_type::fields_view(*ma).dom() =~= ma@.dom());
                    assert(super::simple_type::fields_view(*mb).dom() =~= mb@.dom());
                }
                if same_keys(ma, mb) {
                    PropertyType::Closed(merge_fields(ma, mb))
                } else {
                    PropertyType::Zero
                }
            },
            (PropertyType::Open(ma), PropertyType::Open(mb)) => PropertyType::Open(
                merge_fields(ma, mb),
            ),
            (PropertyType::Open(ma), PropertyType::Closed(mb)) => {
                proof {
                    assert(super::simple_type::fields_view(*ma).dom() =~= ma@.dom());
                    assert(super::simple_type::fields_view(*mb).dom() =~= mb@.dom());
                }
                if !keys_within(ma, mb) {
                    return PropertyType::Zero;
                }
                PropertyType::Closed(merge_fields(ma, mb))
            },
            (PropertyType::Closed(ma), PropertyType::Open(mb)) => {
                proof {
                    assert(super::simple_type::fields_view(*ma).dom() =~= ma@.dom());
                    assert(super::simple_type::fields_view(*mb).dom() =~= mb@.dom());
                }
                if !keys_within(mb, ma) {
                    return PropertyType::Zero;
                }
                PropertyType::Closed(merge_fields(mb, ma))
            },
            _ => PropertyType::Zero,
        }
    }

    /// Subtyping.
    pub fn is_subtype(t1: &PropertyType, t2: &PropertyType) -> (r: bool)
        ensures
            r == t1@.subtype(t2@),
    {
        match (t1, t2) {
            (PropertyType::Zero, _) => true,
            (PropertyType::Open(m1), PropertyType::Open(m2)) => subtype_where_shared(m1, m2),
            (PropertyType::Closed(m1), PropertyType::Closed(m2)) => {
                proof {
                    assert(super::simple_type::fields_view(*m1).dom() =~= m1@.dom());
                    assert(super::simple_type::fields_view(*m2).dom() =~= m2@.dom());
                }
                same_keys(m1, m2) && subtype_where_shared(m1, m2)
            },
            (PropertyType::Closed(m1), PropertyType::Open(m2)) => {
                proof {
                    assert(super::simple_type::fields_view(*m1).dom() =~= m1@.dom());
                    assert(super::simple_type::fields_view(*m2).dom() =~= m2@.dom());
                }
                keys_within(m2, m1) && subtype_where_shared(m1, m2)
            },
            (PropertyType::Open(m1), PropertyType::Closed(m2)) => {
                proof {
                    assert(super::simple_type::fields_view(*m1).dom() =~= m1@.dom());
                    assert(super::simple_type::fields_view(*m2).dom() =~= m2@.dom());
                }
                keys_within(m1, m2) && subtype_where_shared(m1, m2)
            },
            _ => false,
        }
    }

    /// Whether some attribute is bottom. A record without attributes is not
    /// empty.
    pub fn is_empty(&self) -> (r: bool)
        ensures
            r == self@.is_empty(),
    {
        match self {
            PropertyType::Open(m) => some_empty(m),
            PropertyType::Closed(m) => some_empty(m),
            PropertyType::Zero => true,
        }
    }

    /// The printed form.
    pub fn to_string(&self) -> (r: String)
        ensures
            r@ == self@.text(),
    {
        match self {
            PropertyType::Open(m) => {
                proof {
                    if m@ == Map::<Seq<char>, SimpleType>::empty() {
                        assert(self@->Open_0 =~= Map::<Seq<char>, SimpleTypeView>::empty());
                    } else if self@->Open_0 == Map::<Seq<char>, SimpleTypeView>::empty() {
                        assert forall|k: Seq<char>| !m@.contains_key(k) by {
                            assert(!self@->Open_0.contains_key(k));
                        }
                        assert(m@ =~= Map::<Seq<char>, SimpleType>::empty());
                    }
                }
                if m.is_empty() {
                    copy_text("{*}")
                } else {
                    let parts = SimpleType::field_lines(m, ":");
                    let mut s = copy_text("{");
                    s.append(join_texts(&parts, ",").as_str());
                    s.append(",*}");
                    s
                }
            },
            PropertyType::Closed(m) => {
                proof {
                    if m@ == Map::<Seq<char>, SimpleType>::empty() {
                        assert(self@->Closed_0 =~= Map::<Seq<char>, SimpleTypeView>::empty());
                    } else if self@->Closed_0 == Map::<Seq<char>, SimpleTypeView>::empty() {
                        assert forall|k: Seq<char>| !m@.contains_key(k) by {
                            assert(!self@->Closed_0.contains_key(k));
                        }
                        assert(m@ =~= Map::<Seq<char>, SimpleType>::empty());
                    }
                }
                if m.is_empty() {
                    copy_text("{}")
                } else {
                    let parts = SimpleType::field_lines(m, ":");
                    let mut s = copy_text("{");
                    s.append(join_texts(&parts, ",").as_str());
                    s.append("}");
                    s
                }
            },
            PropertyType::Zero => copy_text("⊥"),
        }
    }
}

} // verus!
