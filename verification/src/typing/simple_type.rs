//! Value types: atoms, unions, lists, records and references.

use vstd::prelude::*;

use crate::fields::{same_keys, FieldMap};
use crate::text::{copy_text, join_texts};

verus! {

/// The type of a property value or of an expression.
#[derive(Debug, PartialEq, Eq)]
pub enum SimpleType {
    /// Integers.
    Z,
    /// Floating-point numbers.
    F,
    /// Booleans.
    B,
    /// Strings.
    S,
    /// The unknown type, consistent with every type.
    Star,
    /// Bottom: a contradiction.
    Zero,
    /// Either of two types.
    Union(Box<SimpleType>, Box<SimpleType>),
    /// The group of values that a repetition binds.
    Group(Box<SimpleType>),
    /// Lists, written `[T]`.
    List(Box<SimpleType>),
    /// Records with exactly these fields.
    Record(FieldMap<SimpleType>),
    /// References to nodes, compared by identity.
    Node,
    /// References to edges, compared by identity.
    Edge,
    /// Paths; related to no type but itself.
    Path,
}

/// The value of a `SimpleType`.
pub enum SimpleTypeView {
    Z,
    F,
    B,
    S,
    Star,
    Zero,
    Union(Box<SimpleTypeView>, Box<SimpleTypeView>),
    Group(Box<SimpleTypeView>),
    List(Box<SimpleTypeView>),
    Record(Map<Seq<char>, SimpleTypeView>),
    Node,
    Edge,
    Path,
}

/// The value of a map of types.
pub open spec fn fields_view(m: FieldMap<SimpleType>) -> Map<Seq<char>, SimpleTypeView> {
    Map::new(|k: Seq<char>| m@.contains_key(k), |k: Seq<char>| m@[k]@)
}

/// Both maps together, with the meet of the two types where they share a key.
pub open spec fn merged(
    a: Map<Seq<char>, SimpleTypeView>,
    b: Map<Seq<char>, SimpleTypeView>,
) -> Map<Seq<char>, SimpleTypeView> {
    Map::new(
        |k: Seq<char>| a.contains_key(k) || b.contains_key(k),
        |k: Seq<char>|
            if a.contains_key(k) && b.contains_key(k) {
                a[k].meet(b[k])
            } else if a.contains_key(k) {
                a[k]
            } else {
                b[k]
            },
    )
}

impl SimpleTypeView {
    /// Least upper bound: bottom is neutral and equal types collapse.
    pub open spec fn union(self, other: SimpleTypeView) -> SimpleTypeView {
        if self is Zero {
            other
        } else if other is Zero {
            self
        } else if self == other {
            self
        } else {
            SimpleTypeView::Union(Box::new(self), Box::new(other))
        }
    }

    /// Greatest lower bound. The unknown type is neutral, unions distribute,
    /// constructed types meet inside, and records need equal field names.
    pub open spec fn meet(self, other: SimpleTypeView) -> SimpleTypeView
        decreases self, other,
    {
        match (self, other) {
            (SimpleTypeView::Star, _) => other,
            (_, SimpleTypeView::Star) => self,
            (SimpleTypeView::Union(t1, t2), _) => t1.meet(other).union(t2.meet(other)),
            (_, SimpleTypeView::Union(t1, t2)) => self.meet(*t1).union(self.meet(*t2)),
            (SimpleTypeView::List(a), SimpleTypeView::List(b)) => SimpleTypeView::List(
                Box::new(a.meet(*b)),
            ),
            (SimpleTypeView::Group(a), SimpleTypeView::Group(b)) => SimpleTypeView::Group(
                Box::new(a.meet(*b)),
            ),
            (SimpleTypeView::Record(a), SimpleTypeView::Record(b)) => if a.dom() == b.dom() {
                SimpleTypeView::Record(
                    Map::new(
                        |k: Seq<char>| a.contains_key(k),
                        |k: Seq<char>|
                            if a.contains_key(k) {
                                a[k].meet(b[k])
                            } else {
                                arbitrary()
                            },
                    ),
                )
            } else {
                SimpleTypeView::Zero
            },
            _ => if self == other {
                self
            } else {
                SimpleTypeView::Zero
            },
        }
    }

    /// Consistent subtyping.
    pub open spec fn subtype(self, other: SimpleTypeView) -> bool
        decreases self, other,
    {
        match (self, other) {
            (SimpleTypeView::Star, _) => true,
            (_, SimpleTypeView::Star) => true,
            (SimpleTypeView::Zero, _) => true,
            (SimpleTypeView::Union(a, b), _) => a.subtype(other) || b.subtype(other),
            (_, SimpleTypeView::Union(a, b)) => self.subtype(*a) || self.subtype(*b),
            (SimpleTypeView::List(a), SimpleTypeView::List(b)) => a.subtype(*b),
            (SimpleTypeView::Group(a), SimpleTypeView::Group(b)) => a.subtype(*b),
            (SimpleTypeView::Record(a), SimpleTypeView::Record(b)) => {
                &&& a.dom() == b.dom()
                &&& forall|k: Seq<char>| #[trigger]
                    a.contains_key(k) ==> a[k].subtype(b[k])
            },
            _ => self == other,
        }
    }

    /// Whether no value can have the type.
    pub open spec fn is_empty(self) -> bool
        decreases self,
    {
        match self {
            SimpleTypeView::Zero => true,
            SimpleTypeView::Union(a, b) => a.is_empty() && b.is_empty(),
            SimpleTypeView::Group(t) => t.is_empty(),
            SimpleTypeView::List(t) => t.is_empty(),
            SimpleTypeView::Record(m) => exists|k: Seq<char>| #[trigger]
                m.contains_key(k) && m[k].is_empty(),
            _ => false,
        }
    }

    /// The printed form.
    pub open spec fn text(self) -> Seq<char>
        decreases self,
    {
        match self {
            SimpleTypeView::Z => "int"@,
            SimpleTypeView::F => "float"@,
            SimpleTypeView::B => "bool"@,
            SimpleTypeView::S => "str"@,
            SimpleTypeView::Star => "*"@,
            SimpleTypeView::Zero => "⊥"@,
            SimpleTypeView::Union(a, b) => a.text() + " | "@ + b.text(),
            SimpleTypeView::Group(t) => "group<"@ + t.text() + ">"@,
            SimpleTypeView::List(t) => "["@ + t.text() + "]"@,
            SimpleTypeView::Record(m) => "{"@ + crate::text::joined(
                SimpleTypeView::field_texts(m, " "@),
                ", "@,
            ) + "}"@,
            SimpleTypeView::Node => "node"@,
            SimpleTypeView::Edge => "edge"@,
            SimpleTypeView::Path => "path"@,
        }
    }
}

impl SimpleTypeView {
    /// Each field with its type behind `sep`, in ascending order of names.
    pub open spec fn field_texts(m: Map<Seq<char>, SimpleTypeView>, sep: Seq<char>) -> Seq<
        Seq<char>,
    >
        decreases m,
    {
        let keys = crate::fields::sorted_keys(m);
        Seq::new(
            keys.len(),
            |i: int|
                keys[i] + sep + (if m.dom().finite() && m.contains_key(keys[i]) {
                    m[keys[i]].text()
                } else {
                    arbitrary()
                }),
        )
    }
}

impl SimpleTypeView {
    /// Neither the unknown type nor bottom occurs in the type.
    pub open spec fn is_firm(self) -> bool
        decreases self,
    {
        match self {
            SimpleTypeView::Star => false,
            SimpleTypeView::Zero => false,
            SimpleTypeView::Union(a, b) => a.is_firm() && b.is_firm(),
            SimpleTypeView::Group(t) => t.is_firm(),
            SimpleTypeView::List(t) => t.is_firm(),
            SimpleTypeView::Record(m) => forall|k: Seq<char>| #[trigger]
                m.contains_key(k) ==> m[k].is_firm(),
            _ => true,
        }
    }

    /// A firm type has values.
    pub proof fn firm_inhabited(self)
        requires
            self.is_firm(),
        ensures
            !self.is_empty(),
        decreases self,
    {
        match self {
            SimpleTypeView::Union(a, _) => a.firm_inhabited(),
            SimpleTypeView::Group(t) => t.firm_inhabited(),
            SimpleTypeView::List(t) => t.firm_inhabited(),
            SimpleTypeView::Record(m) => {
                assert forall|k: Seq<char>| #[trigger] m.contains_key(k) implies !m[k].is_empty() by {
                    m[k].firm_inhabited();
                }
            },
            _ => {},
        }
    }

    /// A firm subtype of a union is a subtype of one side.
    proof fn firm_side(self, a: SimpleTypeView, b: SimpleTypeView)
        requires
            self.is_firm(),
            self.subtype(SimpleTypeView::Union(Box::new(a), Box::new(b))),
        ensures
            self.subtype(a) || self.subtype(b),
        decreases self,
    {
        match self {
            SimpleTypeView::Union(x, y) => {
                let t = SimpleTypeView::Union(Box::new(a), Box::new(b));
                if x.subtype(t) {
                    x.firm_side(a, b);
                } else {
                    y.firm_side(a, b);
                }
            },
            _ => {},
        }
    }

    /// A firm type has values in common with every type that it is a subtype of,
    /// on whichever side it stands.
    pub proof fn firm_meet(self, t: SimpleTypeView)
        requires
            self.is_firm(),
            self.subtype(t),
        ensures
            !self.meet(t).is_empty(),
            !t.meet(self).is_empty(),
        decreases self, t,
    {
        match (self, t) {
            (_, SimpleTypeView::Star) => self.firm_inhabited(),
            (SimpleTypeView::Union(a, b), SimpleTypeView::Union(x, y)) => {
                if a.subtype(t) {
                    a.firm_meet(t);
                } else {
                    b.firm_meet(t);
                }
                self.firm_side(*x, *y);
                if self.subtype(*x) {
                    self.firm_meet(*x);
                } else {
                    self.firm_meet(*y);
                }
            },
            (SimpleTypeView::Union(a, b), _) => {
                if a.subtype(t) {
                    a.firm_meet(t);
                } else {
                    b.firm_meet(t);
                }
            },
            (_, SimpleTypeView::Union(x, y)) => {
                if self.subtype(*x) {
                    self.firm_meet(*x);
                } else {
                    self.firm_meet(*y);
                }
            },
            (SimpleTypeView::List(a), SimpleTypeView::List(b)) => a.firm_meet(*b),
            (SimpleTypeView::Group(a), SimpleTypeView::Group(b)) => a.firm_meet(*b),
            (SimpleTypeView::Record(a), SimpleTypeView::Record(b)) => {
                let m = self.meet(t)->Record_0;
                let n = t.meet(self)->Record_0;
                assert forall|k: Seq<char>| #[trigger] m.contains_key(k) implies !m[k].is_empty() by {
                    assert(a.contains_key(k));
                    a[k].firm_meet(b[k]);
                }
                assert forall|k: Seq<char>| #[trigger] n.contains_key(k) implies !n[k].is_empty() by {
                    assert(b.contains_key(k));
                    assert(a.dom().contains(k));
                    assert(a.contains_key(k));
                    a[k].firm_meet(b[k]);
                }
            },
            _ => self.firm_inhabited(),
        }
    }
}

impl SimpleTypeView {
    /// An empty type stays empty under a meet.
    pub proof fn empty_meet(a: SimpleTypeView, b: SimpleTypeView)
        requires
            a.is_empty() || b.is_empty(),
        ensures
            a.meet(b).is_empty(),
        decreases a, b,
    {
        match (a, b) {
            (SimpleTypeView::Star, _) => {},
            (_, SimpleTypeView::Star) => {},
            (SimpleTypeView::Union(t1, t2), _) => {
                if b.is_empty() || t1.is_empty() {
                    SimpleTypeView::empty_meet(*t1, b);
                }
                if b.is_empty() || t2.is_empty() {
                    SimpleTypeView::empty_meet(*t2, b);
                }
            },
            (_, SimpleTypeView::Union(t1, t2)) => {
                if a.is_empty() || t1.is_empty() {
                    SimpleTypeView::empty_meet(a, *t1);
                }
                if a.is_empty() || t2.is_empty() {
                    SimpleTypeView::empty_meet(a, *t2);
                }
            },
            (SimpleTypeView::List(x), SimpleTypeView::List(y)) => {
                SimpleTypeView::empty_meet(*x, *y);
            },
            (SimpleTypeView::Group(x), SimpleTypeView::Group(y)) => {
                SimpleTypeView::empty_meet(*x, *y);
            },
            (SimpleTypeView::Record(x), SimpleTypeView::Record(y)) => {
                if x.dom() == y.dom() {
                    let m = a.meet(b)->Record_0;
                    if a.is_empty() {
                        let k = choose|k: Seq<char>| #[trigger]
                            x.contains_key(k) && x[k].is_empty();
                        SimpleTypeView::empty_meet(x[k], y[k]);
                        assert(m.contains_key(k));
                    } else {
                        let k = choose|k: Seq<char>| #[trigger]
                            y.contains_key(k) && y[k].is_empty();
                        assert(x.dom().contains(k));
                        SimpleTypeView::empty_meet(x[k], y[k]);
                        assert(m.contains_key(k));
                    }
                }
            },
            _ => {},
        }
    }
}

impl Clone for SimpleType {
    fn clone(&self) -> (r: Self)
        ensures
            r@ == self@,
        decreases self,
    {
        match self {
            SimpleType::Z => SimpleType::Z,
            SimpleType::F => SimpleType::F,
            SimpleType::B => SimpleType::B,
            SimpleType::S => SimpleType::S,
            SimpleType::Star => SimpleType::Star,
            SimpleType::Zero => SimpleType::Zero,
            SimpleType::Union(a, b) => SimpleType::Union(
                Box::new((**a).clone()),
                Box::new((**b).clone()),
            ),
            SimpleType::Group(t) => SimpleType::Group(Box::new((**t).clone())),
            SimpleType::List(t) => SimpleType::List(Box::new((**t).clone())),
            SimpleType::Record(m) => {
                let n = m.len();
                let mut out: FieldMap<SimpleType> = FieldMap::new();
                let mut i: usize = 0;
                while i < n
                    invariant
                        i <= n,
                        n == m.keys().len(),
                        *self == SimpleType::Record(*m),
                        m.keys().no_duplicates(),
                        m.keys().to_set() == m@.dom(),
                        out@.dom() == m.keys().take(i as int).to_set(),
                        forall|j: int|
                            0 <= j < i ==> m@.contains_key(#[trigger] m.keys()[j])
                                && out@[m.keys()[j]]@ == m@[m.keys()[j]]@,
                    decreases n - i,
                {
                    proof {
                        m.values_decrease();
                        crate::fields::prefix_set_step(m.keys(), i as int);
                    }
                    let v = m.value_at(i);
                    assert(decreases_to!(self => self->Record_0));
                    let t = v.clone();
                    out.insert(m.key_at(i).clone(), t);
                    i = i + 1;
                }
                assert(m.keys().take(n as int) =~= m.keys());
                let r = SimpleType::Record(out);
                proof {
                    assert forall|k: Seq<char>| m@.contains_key(k) implies out@[k]@ == m@[k]@ by {
                        assert(m.keys().to_set().contains(k));
                    }
                    assert(r@->Record_0 =~= self@->Record_0);
                }
                r
            },
            SimpleType::Node => SimpleType::Node,
            SimpleType::Edge => SimpleType::Edge,
            SimpleType::Path => SimpleType::Path,
        }
    }
}

impl SimpleType {
    /// The value, with records as maps.
    pub open spec fn view(&self) -> SimpleTypeView
        decreases self,
    {
        match self {
            SimpleType::Z => SimpleTypeView::Z,
            SimpleType::F => SimpleTypeView::F,
            SimpleType::B => SimpleTypeView::B,
            SimpleType::S => SimpleTypeView::S,
            SimpleType::Star => SimpleTypeView::Star,
            SimpleType::Zero => SimpleTypeView::Zero,
            SimpleType::Union(a, b) => SimpleTypeView::Union(Box::new(a.view()), Box::new(b.view())),
            SimpleType::Group(t) => SimpleTypeView::Group(Box::new(t.view())),
            SimpleType::List(t) => SimpleTypeView::List(Box::new(t.view())),
            SimpleType::Record(m) => {
                proof {
                    m.values_decrease();
                }
                SimpleTypeView::Record(
                    Map::new(
                        |k: Seq<char>| m@.contains_key(k),
                        |k: Seq<char>|
                            if m@.contains_key(k) {
                                m@[k].view()
                            } else {
                                arbitrary()
                            },
                    ),
                )
            },
            SimpleType::Node => SimpleTypeView::Node,
            SimpleType::Edge => SimpleTypeView::Edge,
            SimpleType::Path => SimpleTypeView::Path,
        }
    }
}

impl SimpleType {
    /// Whether two types are equal.
    pub fn same(&self, other: &SimpleType) -> (r: bool)
        ensures
            r == (self@ == other@),
        decreases self,
    {
        match (self, other) {
            (SimpleType::Z, SimpleType::Z) => true,
            (SimpleType::F, SimpleType::F) => true,
            (SimpleType::B, SimpleType::B) => true,
            (SimpleType::S, SimpleType::S) => true,
            (SimpleType::Star, SimpleType::Star) => true,
            (SimpleType::Zero, SimpleType::Zero) => true,
            (SimpleType::Node, SimpleType::Node) => true,
            (SimpleType::Edge, SimpleType::Edge) => true,
            (SimpleType::Path, SimpleType::Path) => true,
            (SimpleType::Union(a, b), SimpleType::Union(c, d)) => a.same(c) && b.same(d),
            (SimpleType::Group(a), SimpleType::Group(b)) => a.same(b),
            (SimpleType::List(a), SimpleType::List(b)) => a.same(b),
            (SimpleType::Record(a), SimpleType::Record(b)) => {
                if !same_keys(a, b) {
                    assert(self@->Record_0.dom() =~= a@.dom());
                    assert(other@->Record_0.dom() =~= b@.dom());
                    return false;
                }
                let n = a.len();
                let mut i: usize = 0;
                while i < n
                    invariant
                        i <= n,
                        n == a.keys().len(),
                        *self == SimpleType::Record(*a),
                        *other == SimpleType::Record(*b),
                        a@.dom() == b@.dom(),
                        a.keys().to_set() == a@.dom(),
                        forall|j: int|
                            0 <= j < i ==> a@[#[trigger] a.keys()[j]]@ == b@[a.keys()[j]]@,
                    decreases n - i,
                {
                    proof {
                        a.values_decrease();
                        assert(decreases_to!(self => self->Record_0));
                    }
                    let va = a.value_at(i);
                    match b.get(a.key_at(i).as_str()) {
                        Some(vb) => {
                            if !va.same(vb) {
                                assert(self@->Record_0[a.keys()[i as int]] == va@);
                                assert(other@->Record_0[a.keys()[i as int]] == vb@);
                                return false;
                            }
                        },
                        None => {
                            return false;
                        },
                    }
                    i = i + 1;
                }
                assert forall|k: Seq<char>| a@.contains_key(k) implies a@[k]@ == b@[k]@ by {
                    assert(a.keys().to_set().contains(k));
                }
                assert(self@->Record_0 =~= other@->Record_0);
                true
            },
            _ => false,
        }
    }

    /// Least upper bound.
    pub fn union(a: &SimpleType, b: &SimpleType) -> (r: SimpleType)
        ensures
            r@ == a@.union(b@),
    {
        if let SimpleType::Zero = a {
            return b.clone();
        }
        if let SimpleType::Zero = b {
            return a.clone();
        }
        if a.same(b) {
            return a.clone();
        }
        SimpleType::Union(Box::new(a.clone()), Box::new(b.clone()))
    }

    /// Field-wise meet of two records with the same field names.
    fn meet_fields(a: &FieldMap<SimpleType>, b: &FieldMap<SimpleType>) -> (r: FieldMap<SimpleType>)
        requires
            a@.dom() == b@.dom(),
        ensures
            r@.dom() == a@.dom(),
            forall|k: Seq<char>| #[trigger] r@.contains_key(k) ==> r@[k]@ == a@[k]@.meet(b@[k]@),
        decreases a, b,
    {
        let n = a.len();
        let mut out: FieldMap<SimpleType> = FieldMap::new();
        assert(a.keys().take(0).to_set() =~= Set::<Seq<char>>::empty());
        let mut i: usize = 0;
        while i < n
            invariant
                i <= n,
                n == a.keys().len(),
                a@.dom() == b@.dom(),
                a.keys().no_duplicates(),
                a.keys().to_set() == a@.dom(),
                out@.dom() == a.keys().take(i as int).to_set(),
                forall|j: int|
                    0 <= j < i ==> out@[#[trigger] a.keys()[j]]@ == a@[a.keys()[j]]@.meet(
                        b@[a.keys()[j]]@,
                    ),
            decreases n - i,
        {
            proof {
                a.values_decrease();
                crate::fields::prefix_set_step(a.keys(), i as int);
                assert(a.keys().to_set().contains(a.keys()[i as int]));
            }
            let va = a.value_at(i);
            let t = match b.get(a.key_at(i).as_str()) {
                Some(vb) => SimpleType::meet(va, vb),
                None => SimpleType::Zero,
            };
            out.insert(a.key_at(i).clone(), t);
            i = i + 1;
        }
        proof {
            assert(a.keys().take(n as int) =~= a.keys());
            assert forall|k: Seq<char>| #[trigger] out@.contains_key(k) implies out@[k]@
                == a@[k]@.meet(b@[k]@) by {
                assert(a.keys().to_set().contains(k));
            }
        }
        out
    }

    /// Greatest lower bound.
    pub fn meet(a: &SimpleType, b: &SimpleType) -> (r: SimpleType)
        ensures
            r@ == a@.meet(b@),
        decreases a, b,
    {
        match (a, b) {
            (SimpleType::Star, _) => b.clone(),
            (_, SimpleType::Star) => a.clone(),
            (SimpleType::Union(t1, t2), _) => {
                let m1 = SimpleType::meet(t1, b);
                let m2 = SimpleType::meet(t2, b);
                SimpleType::union(&m1, &m2)
            },
            (_, SimpleType::Union(t1, t2)) => {
                let m1 = SimpleType::meet(a, t1);
                let m2 = SimpleType::meet(a, t2);
                SimpleType::union(&m1, &m2)
            },
            (SimpleType::List(x), SimpleType::List(y)) => SimpleType::List(
                Box::new(SimpleType::meet(x, y)),
            ),
            (SimpleType::Group(x), SimpleType::Group(y)) => SimpleType::Group(
                Box::new(SimpleType::meet(x, y)),
            ),
            (SimpleType::Record(x), SimpleType::Record(y)) => {
                proof {
                    assert(a@->Record_0.dom() =~= x@.dom());
                    assert(b@->Record_0.dom() =~= y@.dom());
                }
                if !same_keys(x, y) {
                    SimpleType::Zero
                } else {
                    let met = SimpleType::meet_fields(x, y);
                    let r = SimpleType::Record(met);
                    assert(r@->Record_0 =~= a@.meet(b@)->Record_0);
                    r
                }
            },
            _ => {
                if a.same(b) {
                    a.clone()
                } else {
                    SimpleType::Zero
                }
            },
        }
    }

    /// Consistent subtyping.
    pub fn is_subtype(t1: &SimpleType, t2: &SimpleType) -> (r: bool)
        ensures
            r == t1@.subtype(t2@),
        decreases t1, t2,
    {
        match (t1, t2) {
            (SimpleType::Star, _) => true,
            (_, SimpleType::Star) => true,
            (SimpleType::Zero, _) => true,
            (SimpleType::Union(a, b), _) => SimpleType::is_subtype(a, t2)
                || SimpleType::is_subtype(b, t2),
            (_, SimpleType::Union(a, b)) => SimpleType::is_subtype(t1, a)
                || SimpleType::is_subtype(t1, b),
            (SimpleType::List(a), SimpleType::List(b)) => SimpleType::is_subtype(a, b),
            (SimpleType::Group(a), SimpleType::Group(b)) => SimpleType::is_subtype(a, b),
            (SimpleType::Record(a), SimpleType::Record(b)) => {
                proof {
                    assert(t1@->Record_0.dom() =~= a@.dom());
                    assert(t2@->Record_0.dom() =~= b@.dom());
                }
                if !same_keys(a, b) {
                    return false;
                }
                let n = a.len();
                let mut i: usize = 0;
                while i < n
                    invariant
                        i <= n,
                        n == a.keys().len(),
                        *t1 == SimpleType::Record(*a),
                        *t2 == SimpleType::Record(*b),
                        a@.dom() == b@.dom(),
                        t1@->Record_0.dom() == a@.dom(),
                        a.keys().to_set() == a@.dom(),
                        forall|j: int|
                            0 <= j < i ==> a@[#[trigger] a.keys()[j]]@.subtype(
                                b@[a.keys()[j]]@,
                            ),
                    decreases n - i,
                {
                    proof {
                        a.values_decrease();
                        assert(decreases_to!(t1 => t1->Record_0));
                    }
                    let va = a.value_at(i);
                    match b.get(a.key_at(i).as_str()) {
                        Some(vb) => {
                            if !SimpleType::is_subtype(va, vb) {
                                assert(t1@->Record_0.contains_key(a.keys()[i as int]));
                                return false;
                            }
                        },
                        None => {
                            return false;
                        },
                    }
                    i = i + 1;
                }
                assert forall|k: Seq<char>| #[trigger]
                    t1@->Record_0.contains_key(k) implies t1@->Record_0[k].subtype(
                    t2@->Record_0[k],
                ) by {
                    assert(a.keys().to_set().contains(k));
                }
                true
            },
            _ => t1.same(t2),
        }
    }

    /// Whether no value can have the type: bottom, or built on bottom.
    pub fn is_empty(&self) -> (r: bool)
        ensures
            r == self@.is_empty(),
        decreases self,
    {
        match self {
            SimpleType::Zero => true,
            SimpleType::Union(a, b) => a.is_empty() && b.is_empty(),
            SimpleType::Group(t) => t.is_empty(),
            SimpleType::List(t) => t.is_empty(),
            SimpleType::Record(m) => {
                let n = m.len();
                let mut i: usize = 0;
                while i < n
                    invariant
                        i <= n,
                        n == m.keys().len(),
                        *self == SimpleType::Record(*m),
                        m.keys().to_set() == m@.dom(),
                        forall|j: int| 0 <= j < i ==> !m@[#[trigger] m.keys()[j]]@.is_empty(),
                    decreases n - i,
                {
                    proof {
                        m.values_decrease();
                        assert(decreases_to!(self => self->Record_0));
                    }
                    if m.value_at(i).is_empty() {
                        assert(self@->Record_0.contains_key(m.keys()[i as int]));
                        return true;
                    }
                    i = i + 1;
                }
                assert forall|k: Seq<char>| #[trigger]
                    self@->Record_0.contains_key(k) implies !self@->Record_0[k].is_empty() by {
                    assert(m.keys().to_set().contains(k));
                }
                false
            },
            _ => false,
        }
    }

    /// Each field with its type behind `sep`, in ascending order of names.
    pub fn field_lines(m: &FieldMap<SimpleType>, sep: &str) -> (parts: Vec<String>)
        ensures
            crate::text::texts(parts@) == SimpleTypeView::field_texts(fields_view(*m), sep@),
        decreases m,
    {
        let n = m.len();
        let mut parts: Vec<String> = Vec::new();
        let mut i: usize = 0;
        while i < n
            invariant
                i <= n,
                n == m.keys().len(),
                parts@.len() == i,
                forall|j: int|
                    0 <= j < i ==> (#[trigger] parts@[j])@ == m.keys()[j] + sep@
                        + m@[m.keys()[j]]@.text(),
            decreases n - i,
        {
            proof {
                m.values_decrease();
            }
            let mut s = m.key_at(i).clone();
            s.append(sep);
            s.append(m.value_at(i).to_string().as_str());
            parts.push(s);
            i = i + 1;
        }
        proof {
            assert(fields_view(*m).dom() =~= m@.dom());
            crate::fields::sorted_keys_of_dom(fields_view(*m), m@);
            assert(crate::text::texts(parts@) =~= SimpleTypeView::field_texts(
                fields_view(*m),
                sep@,
            ));
        }
        parts
    }

    /// The printed form.
    pub fn to_string(&self) -> (r: String)
        ensures
            r@ == self@.text(),
        decreases self,
    {
        match self {
            SimpleType::Z => copy_text("int"),
            SimpleType::F => copy_text("float"),
            SimpleType::B => copy_text("bool"),
            SimpleType::S => copy_text("str"),
            SimpleType::Star => copy_text("*"),
            SimpleType::Zero => copy_text("⊥"),
            SimpleType::Union(a, b) => {
                let mut s = a.to_string();
                s.append(" | ");
                s.append(b.to_string().as_str());
                s
            },
            SimpleType::Group(t) => {
                let mut s = copy_text("group<");
                s.append(t.to_string().as_str());
                s.append(">");
                s
            },
            SimpleType::List(t) => {
                let mut s = copy_text("[");
                s.append(t.to_string().as_str());
                s.append("]");
                s
            },
            SimpleType::Record(m) => {
                let parts = SimpleType::field_lines(m, " ");
                assert(fields_view(*m) =~= self@->Record_0);
                let mut s = copy_text("{");
                s.append(join_texts(&parts, ", ").as_str());
                s.append("}");
                s
            },
            SimpleType::Node => copy_text("node"),
            SimpleType::Edge => copy_text("edge"),
            SimpleType::Path => copy_text("path"),
        }
    }
}

/// Both maps together, with the meet of the two types where they share a key.
pub fn merge_fields(a: &FieldMap<SimpleType>, b: &FieldMap<SimpleType>) -> (r: FieldMap<SimpleType>)
    ensures
        fields_view(r) == merged(fields_view(*a), fields_view(*b)),
{
    let n = a.len();
    let mut out: FieldMap<SimpleType> = FieldMap::new();
    assert(a.keys().take(0).to_set() =~= Set::<Seq<char>>::empty());
    let ghost want = merged(fields_view(*a), fields_view(*b));
    let mut i: usize = 0;
    while i < n
        invariant
            i <= n,
            n == a.keys().len(),
            want == merged(fields_view(*a), fields_view(*b)),
            a.keys().no_duplicates(),
            a.keys().to_set() == a@.dom(),
            out@.dom() == a.keys().take(i as int).to_set(),
            forall|j: int|
                0 <= j < i ==> out@[#[trigger] a.keys()[j]]@ == want[a.keys()[j]],
        decreases n - i,
    {
        proof {
            crate::fields::prefix_set_step(a.keys(), i as int);
        }
        let va = a.value_at(i);
        let t = match b.get(a.key_at(i).as_str()) {
            Some(vb) => SimpleType::meet(va, vb),
            None => va.clone(),
        };
        out.insert(a.key_at(i).clone(), t);
        i = i + 1;
    }
    proof {
        assert(a.keys().take(n as int) =~= a.keys());
        assert(b.keys().take(0).to_set() =~= Set::<Seq<char>>::empty());
        assert(out@.dom() =~= a@.dom().union(b.keys().take(0).to_set()));
        assert forall|k: Seq<char>| out@.contains_key(k) implies out@[k]@ == want[k] by {
            assert(a.keys().to_set().contains(k));
        }
    }
    let p = b.len();
    let mut j: usize = 0;
    while j < p
        invariant
            j <= p,
            p == b.keys().len(),
            want == merged(fields_view(*a), fields_view(*b)),
            b.keys().to_set() == b@.dom(),
            out@.dom() == a@.dom().union(b.keys().take(j as int).to_set()),
            forall|k: Seq<char>| out@.contains_key(k) ==> (#[trigger] out@[k])@ == want[k],
        decreases p - j,
    {
        proof {
            crate::fields::prefix_set_step(b.keys(), j as int);
        }
        let key = b.key_at(j);
        let vb = b.value_at(j);
        let ghost before = out@;
        if !a.contains_key(key.as_str()) {
            out.insert(key.clone(), vb.clone());
            assert(out@.dom() =~= before.dom().insert(key@));
        }
        j = j + 1;
        assert(out@.dom() =~= a@.dom().union(b.keys().take(j as int).to_set()));
    }
    proof {
        assert(b.keys().take(p as int) =~= b.keys());
        assert(fields_view(out) =~= want);
    }
    out
}

} // verus!
