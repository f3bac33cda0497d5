//! Runtime values.

use vstd::prelude::*;

use super::float_text::print_float;
use crate::fields::{same_keys, FieldMap};
use crate::text::{copy_text, join_texts, same_text, text_of_i64, text_of_u64};

verus! {

/// The number by which a graph knows a node or an edge.
pub type Id = u32;

/// One step of a path.
#[derive(Debug, Clone, Copy, PartialEq, Eq, Structural)]
pub enum PathValue {
    Node(Id),
    EdgeDirectional(Id),
    EdgeUndirectional(Id),
}

/// A property value, or a reference to an element. A floating-point number
/// is held by its IEEE 754 bits.
#[derive(Debug, PartialEq, Eq)]
pub enum Value {
    Null,
    Int(i64),
    Float(u64),
    Str(String),
    Bool(bool),
    List(Vec<Value>),
    Record(FieldMap<Value>),
    Node(Id),
    Edge(Id),
    Path(Vec<PathValue>),
}

/// The properties of a node or an edge.
pub type Props = FieldMap<Value>;

/// The value of a `Value`.
pub enum ValueView {
    Null,
    Int(i64),
    Float(u64),
    Str(Seq<char>),
    Bool(bool),
    List(Seq<ValueView>),
    Record(Map<Seq<char>, ValueView>),
    Node(Id),
    Edge(Id),
    Path(Seq<PathValue>),
}

/// Bits of a floating-point number that is not a number.
pub open spec fn is_nan(bits: u64) -> bool {
    bits % 0x8000_0000_0000_0000 > 0x7ff0_0000_0000_0000
}

/// Equality of floating-point numbers, by their bits: no NaN equals
/// anything, and the two zeros are equal.
pub open spec fn float_equal(a: u64, b: u64) -> bool {
    !is_nan(a) && !is_nan(b) && (a == b || (a % 0x8000_0000_0000_0000 == 0 && b
        % 0x8000_0000_0000_0000 == 0))
}

/// Equality of floating-point numbers.
pub fn same_float(a: u64, b: u64) -> (r: bool)
    ensures
        r == float_equal(a, b),
{
    let x: u64 = a % 0x8000_0000_0000_0000;
    let y: u64 = b % 0x8000_0000_0000_0000;
    x <= 0x7ff0_0000_0000_0000 && y <= 0x7ff0_0000_0000_0000 && (a == b || (x == 0 && y == 0))
}

/// The values of the properties.
pub open spec fn props_view(m: FieldMap<Value>) -> Map<Seq<char>, ValueView> {
    Map::new(|k: Seq<char>| m@.contains_key(k), |k: Seq<char>| m@[k]@)
}

/// The value of each element.
pub open spec fn value_views(v: Seq<Value>) -> Seq<ValueView> {
    Seq::new(v.len(), |i: int| v[i]@)
}

impl ValueView {
    /// Equality of values, with numbers compared as numbers.
    pub open spec fn equals(self, other: ValueView) -> bool
        decreases self,
    {
        match (self, other) {
            (ValueView::Null, ValueView::Null) => true,
            (ValueView::Int(a), ValueView::Int(b)) => a == b,
            (ValueView::Float(a), ValueView::Float(b)) => float_equal(a, b),
            (ValueView::Str(a), ValueView::Str(b)) => a == b,
            (ValueView::Bool(a), ValueView::Bool(b)) => a == b,
            (ValueView::List(a), ValueView::List(b)) => a.len() == b.len() && forall|i: int|
                0 <= i < a.len() ==> (#[trigger] a[i]).equals(b[i]),
            (ValueView::Record(a), ValueView::Record(b)) => a.dom() == b.dom() && forall|
                k: Seq<char>,
            | #[trigger]
                a.contains_key(k) ==> a[k].equals(b[k]),
            (ValueView::Node(a), ValueView::Node(b)) => a == b,
            (ValueView::Edge(a), ValueView::Edge(b)) => a == b,
            (ValueView::Path(a), ValueView::Path(b)) => a == b,
            _ => false,
        }
    }

    /// The printed form of each value.
    pub open spec fn item_texts(
        v: Seq<ValueView>,
        shown: spec_fn(u64) -> Seq<char>,
    ) -> Seq<Seq<char>>
        decreases v,
    {
        Seq::new(
            v.len(),
            |i: int|
                if 0 <= i < v.len() {
                    v[i].text(shown)
                } else {
                    arbitrary()
                },
        )
    }

    /// Each field with its value, in ascending order of names.
    pub open spec fn field_texts(
        m: Map<Seq<char>, ValueView>,
        shown: spec_fn(u64) -> Seq<char>,
    ) -> Seq<Seq<char>>
        decreases m,
    {
        let keys = crate::fields::sorted_keys(m);
        Seq::new(
            keys.len(),
            |i: int|
                keys[i] + ": "@ + (if m.dom().finite() && m.contains_key(keys[i]) {
                    m[keys[i]].text(shown)
                } else {
                    arbitrary()
                }),
        )
    }

    /// The printed form: strings in quotes, floating-point numbers as they are
    /// shown, references by their numbers.
    pub open spec fn text(self, shown: spec_fn(u64) -> Seq<char>) -> Seq<char>
        decreases self,
    {
        match self {
            ValueView::Null => "null"@,
            ValueView::Int(n) => crate::text::signed_decimal(n as int),
            ValueView::Float(bits) => shown(bits),
            ValueView::Str(s) => "'"@ + s + "'"@,
            ValueView::Bool(b) => if b {
                "true"@
            } else {
                "false"@
            },
            ValueView::List(v) => "["@ + crate::text::joined(ValueView::item_texts(v, shown), ", "@)
                + "]"@,
            ValueView::Record(m) => if m.dom().finite() {
                "{"@ + crate::text::joined(ValueView::field_texts(m, shown), ", "@) + "}"@
            } else {
                arbitrary()
            },
            ValueView::Node(id) => "node#"@ + crate::text::decimal(id as nat),
            ValueView::Edge(id) => "edge#"@ + crate::text::decimal(id as nat),
            ValueView::Path(steps) => "path["@ + crate::text::joined(step_texts(steps), ", "@)
                + "]"@,
        }
    }
}

/// The printed form of the steps of a path.
pub open spec fn step_texts(steps: Seq<PathValue>) -> Seq<Seq<char>> {
    Seq::new(
        steps.len(),
        |i: int|
            match steps[i] {
                PathValue::Node(id) => "node#"@ + crate::text::decimal(id as nat),
                PathValue::EdgeDirectional(id) => "edge#"@ + crate::text::decimal(id as nat),
                PathValue::EdgeUndirectional(id) => "edge#"@ + crate::text::decimal(id as nat),
            },
    )
}

impl Clone for Value {
    fn clone(&self) -> (r: Self)
        ensures
            r@ == self@,
        decreases self,
    {
        match self {
            Value::Null => Value::Null,
            Value::Int(n) => Value::Int(*n),
            Value::Float(bits) => Value::Float(*bits),
            Value::Str(s) => Value::Str(s.clone()),
            Value::Bool(b) => Value::Bool(*b),
            Value::List(v) => {
                let mut out: Vec<Value> = Vec::new();
                let mut i: usize = 0;
                while i < v.len()
                    invariant
                        i <= v.len(),
                        *self == Value::List(*v),
                        out@.len() == i,
                        forall|j: int| 0 <= j < i ==> (#[trigger] out@[j])@ == v@[j]@,
                    decreases v.len() - i,
                {
                    assert(decreases_to!(self => self->List_0));
                    out.push(v[i].clone());
                    i = i + 1;
                }
                let r = Value::List(out);
                assert(r@->List_0 =~= self@->List_0);
                r
            },
            Value::Record(m) => {
                let r = Value::Record(clone_props(m));
                assert(r@->Record_0 =~= props_view(r->Record_0));
                assert(self@->Record_0 =~= props_view(*m));
                r
            },
            Value::Node(id) => Value::Node(*id),
            Value::Edge(id) => Value::Edge(*id),
            Value::Path(steps) => {
                let mut out: Vec<PathValue> = Vec::new();
                let mut i: usize = 0;
                while i < steps.len()
                    invariant
                        i <= steps.len(),
                        out@ == steps@.take(i as int),
                    decreases steps.len() - i,
                {
                    out.push(steps[i]);
                    i = i + 1;
                    assert(out@ =~= steps@.take(i as int));
                }
                assert(out@ =~= steps@);
                Value::Path(out)
            },
        }
    }
}

/// A copy of the properties.
pub fn clone_props(m: &FieldMap<Value>) -> (r: FieldMap<Value>)
    ensures
        props_view(r) == props_view(*m),
    decreases m,
{
    let n = m.len();
    let mut out: FieldMap<Value> = FieldMap::new();
    assert(m.keys().take(0).to_set() =~= Set::<Seq<char>>::empty());
    let mut i: usize = 0;
    while i < n
        invariant
            i <= n,
            n == m.keys().len(),
            m.keys().no_duplicates(),
            m.keys().to_set() == m@.dom(),
            out@.dom() == m.keys().take(i as int).to_set(),
            forall|j: int| 0 <= j < i ==> out@[#[trigger] m.keys()[j]]@ == m@[m.keys()[j]]@,
        decreases n - i,
    {
        proof {
            m.values_decrease();
            crate::fields::prefix_set_step(m.keys(), i as int);
        }
        let v = m.value_at(i);
        let c = v.clone();
        out.insert(m.key_at(i).clone(), c);
        i = i + 1;
    }
    proof {
        assert(m.keys().take(n as int) =~= m.keys());
        assert forall|k: Seq<char>| m@.contains_key(k) implies out@[k]@ == m@[k]@ by {
            assert(m.keys().to_set().contains(k));
        }
        assert(props_view(out) =~= props_view(*m));
    }
    out
}

impl Value {
    /// The value, with strings and containers by their contents.
    pub open spec fn view(&self) -> ValueView
        decreases self,
    {
        match self {
            Value::Null => ValueView::Null,
            Value::Int(n) => ValueView::Int(*n),
            Value::Float(bits) => ValueView::Float(*bits),
            Value::Str(s) => ValueView::Str(s@),
            Value::Bool(b) => ValueView::Bool(*b),
            Value::List(v) => ValueView::List(
                Seq::new(
                    v@.len(),
                    |i: int|
                        if 0 <= i < v@.len() {
                            v@[i].view()
                        } else {
                            arbitrary()
                        },
                ),
            ),
            Value::Record(m) => {
                proof {
                    m.values_decrease();
                }
                ValueView::Record(
                    Map::new(
                        |k: Seq<char>| m@.contains_key(k),
                        |k: Seq<char>|
                            if m@.contains_key(k) {
                                m@[k].view()
                            } else {
                                arbitrary()
                            },
                    ),
                )
            },
            Value::Node(id) => ValueView::Node(*id),
            Value::Edge(id) => ValueView::Edge(*id),
            Value::Path(steps) => ValueView::Path(steps@),
        }
    }

    /// Equality of values.
    pub fn equals(&self, other: &Value) -> (r: bool)
        ensures
            r == self@.equals(other@),
        decreases self,
    {
        match (self, other) {
            (Value::Null, Value::Null) => true,
            (Value::Int(a), Value::Int(b)) => *a == *b,
            (Value::Float(a), Value::Float(b)) => same_float(*a, *b),
            (Value::Str(a), Value::Str(b)) => same_text(a.as_str(), b.as_str()),
            (Value::Bool(a), Value::Bool(b)) => *a == *b,
            (Value::List(a), Value::List(b)) => {
                if a.len() != b.len() {
                    return false;
                }
                let mut i: usize = 0;
                while i < a.len()
                    invariant
                        i <= a.len(),
                        a.len() == b.len(),
                        *self == Value::List(*a),
                        *other == Value::List(*b),
                        forall|j: int| 0 <= j < i ==> (#[trigger] a@[j])@.equals(b@[j]@),
                    decreases a.len() - i,
                {
                    assert(decreases_to!(self => self->List_0));
                    if !a[i].equals(&b[i]) {
                        assert(self@->List_0[i as int] == a@[i as int]@);
                        assert(other@->List_0[i as int] == b@[i as int]@);
                        return false;
                    }
                    i = i + 1;
                }
                assert forall|j: int| 0 <= j < self@->List_0.len() implies (
                #[trigger] self@->List_0[j]).equals(other@->List_0[j]) by {
                    assert(a@[j]@.equals(b@[j]@));
                }
                true
            },
            (Value::Record(a), Value::Record(b)) => {
                proof {
                    assert(self@->Record_0.dom() =~= a@.dom());
                    assert(other@->Record_0.dom() =~= b@.dom());
                }
                if !same_keys(a, b) {
                    return false;
                }
                let n = a.len();
                let mut i: usize = 0;
                while i < n
                    invariant
                        i <= n,
                        n == a.keys().len(),
                        *self == Value::Record(*a),
                        *other == Value::Record(*b),
                        a@.dom() == b@.dom(),
                        self@->Record_0.dom() == a@.dom(),
                        a.keys().to_set() == a@.dom(),
                        forall|j: int|
                            0 <= j < i ==> a@[#[trigger] a.keys()[j]]@.equals(b@[a.keys()[j]]@),
                    decreases n - i,
                {
                    proof {
                        a.values_decrease();
                        assert(decreases_to!(self => self->Record_0));
                    }
                    let va = a.value_at(i);
                    match b.get(a.key_at(i).as_str()) {
                        Some(vb) => {
                            if !va.equals(vb) {
                                assert(self@->Record_0.contains_key(a.keys()[i as int]));
                                return false;
                            }
                        },
                        None => {
                            return false;
                        },
                    }
                    i = i + 1;
                }
                assert forall|k: Seq<char>| #[trigger]
                    self@->Record_0.contains_key(k) implies self@->Record_0[k].equals(
                    other@->Record_0[k],
                ) by {
                    assert(a.keys().to_set().contains(k));
                }
                true
            },
            (Value::Node(a), Value::Node(b)) => *a == *b,
            (Value::Edge(a), Value::Edge(b)) => *a == *b,
            (Value::Path(a), Value::Path(b)) => {
                if a.len() != b.len() {
                    return false;
                }
                let mut i: usize = 0;
                while i < a.len()
                    invariant
                        i <= a.len(),
                        a.len() == b.len(),
                        *self == Value::Path(*a),
                        *other == Value::Path(*b),
                        forall|j: int| 0 <= j < i ==> #[trigger] a@[j] == b@[j],
                    decreases a.len() - i,
                {
                    if a[i] != b[i] {
                        assert(self@->Path_0[i as int] != other@->Path_0[i as int]);
                        return false;
                    }
                    i = i + 1;
                }
                assert(a@ =~= b@);
                true
            },
            _ => false,
        }
    }

    /// The printed form, with floating-point numbers as a function prints them.
    pub fn to_string<F: Fn(u64) -> String>(&self, show: &F) -> (r: String)
        requires
            crate::model::float_text::prints_floats(*show),
        ensures
            r@ == self@.text(crate::model::float_text::float_texts(*show)),
        decreases self,
    {
        match self {
            Value::Null => copy_text("null"),
            Value::Int(n) => text_of_i64(*n),
            Value::Float(bits) => print_float(*bits, show),
            Value::Str(t) => {
                let mut s = copy_text("'");
                s.append(t.as_str());
                s.append("'");
                s
            },
            Value::Bool(b) => if *b {
                copy_text("true")
            } else {
                copy_text("false")
            },
            Value::List(v) => {
                let mut parts: Vec<String> = Vec::new();
                let mut i: usize = 0;
                while i < v.len()
                    invariant
                        i <= v.len(),
                        crate::model::float_text::prints_floats(*show),
                        *self == Value::List(*v),
                        parts@.len() == i,
                        forall|j: int|
                            0 <= j < i ==> (#[trigger] parts@[j])@ == v@[j]@.text(
                                crate::model::float_text::float_texts(*show),
                            ),
                    decreases v.len() - i,
                {
                    assert(decreases_to!(self => self->List_0));
                    parts.push(v[i].to_string(show));
                    i = i + 1;
                }
                assert(crate::text::texts(parts@) =~= ValueView::item_texts(
                    self@->List_0,
                    crate::model::float_text::float_texts(*show),
                ));
                let mut s = copy_text("[");
                s.append(join_texts(&parts, ", ").as_str());
                s.append("]");
                s
            },
            Value::Record(m) => {
                let n = m.len();
                let mut parts: Vec<String> = Vec::new();
                let mut i: usize = 0;
                while i < n
                    invariant
                        i <= n,
                        n == m.keys().len(),
                        crate::model::float_text::prints_floats(*show),
                        *self == Value::Record(*m),
                        parts@.len() == i,
                        forall|j: int|
                            0 <= j < i ==> (#[trigger] parts@[j])@ == m.keys()[j] + ": "@
                                + m@[m.keys()[j]]@.text(crate::model::float_text::float_texts(*show)),
                    decreases n - i,
                {
                    proof {
                        m.values_decrease();
                        assert(decreases_to!(self => self->Record_0));
                    }
                    let mut s = m.key_at(i).clone();
                    s.append(": ");
                    s.append(m.value_at(i).to_string(show).as_str());
                    parts.push(s);
                    i = i + 1;
                }
                proof {
                    let f = self@->Record_0;
                    assert(f.dom() =~= m@.dom());
                    crate::fields::sorted_keys_of_dom(f, m@);
                    assert(crate::text::texts(parts@) =~= ValueView::field_texts(
                        f,
                        crate::model::float_text::float_texts(*show),
                    ));
                }
                let mut s = copy_text("{");
                s.append(join_texts(&parts, ", ").as_str());
                s.append("}");
                s
            },
            Value::Node(id) => {
                let mut s = copy_text("node#");
                s.append(text_of_u64(*id as u64).as_str());
                s
            },
            Value::Edge(id) => {
                let mut s = copy_text("edge#");
                s.append(text_of_u64(*id as u64).as_str());
                s
            },
            Value::Path(steps) => {
                let mut parts: Vec<String> = Vec::new();
                let mut i: usize = 0;
                while i < steps.len()
                    invariant
                        i <= steps.len(),
                        parts@.len() == i,
                        forall|j: int|
                            0 <= j < i ==> (#[trigger] parts@[j])@ == step_texts(steps@)[j],
                    decreases steps.len() - i,
                {
                    let (head, id) = match steps[i] {
                        PathValue::Node(id) => ("node#", id),
                        PathValue::EdgeDirectional(id) => ("edge#", id),
                        PathValue::EdgeUndirectional(id) => ("edge#", id),
                    };
                    let mut s = copy_text(head);
                    s.append(text_of_u64(id as u64).as_str());
                    parts.push(s);
                    i = i + 1;
                }
                assert(crate::text::texts(parts@) =~= step_texts(steps@));
                let mut s = copy_text("path[");
                s.append(join_texts(&parts, ", ").as_str());
                s.append("]");
                s
            },
        }
    }
}

} // verus!
