//! Label types: a boolean algebra over the labels of graph elements.

use vstd::prelude::*;

use crate::text::{copy_text, same_text};

verus! {

/// A constraint on the labels of a node or an edge.
#[derive(Debug, PartialEq, Eq)]
pub enum LabelType {
    /// One label, such as `Person`.
    Label(String),
    /// Wildcard: any labels.
    Star,
    /// Some known label.
    Top,
    /// No label; a subtype of everything.
    Empty,
    /// Conjunction.
    And(Box<LabelType>, Box<LabelType>),
    /// Disjunction.
    Or(Box<LabelType>, Box<LabelType>),
    /// Negation.
    Neg(Box<LabelType>),
}

/// The value of a `LabelType`.
pub enum LabelTypeView {
    Label(Seq<char>),
    Star,
    Top,
    Empty,
    And(Box<LabelTypeView>, Box<LabelTypeView>),
    Or(Box<LabelTypeView>, Box<LabelTypeView>),
    Neg(Box<LabelTypeView>),
}

impl LabelTypeView {
    /// The conjunction of single labels, nested to the right.
    pub open spec fn from_list(labels: Seq<Seq<char>>) -> LabelTypeView
        decreases labels.len(),
    {
        if labels.len() <= 1 {
            LabelTypeView::Label(labels[0])
        } else {
            LabelTypeView::And(
                Box::new(LabelTypeView::Label(labels[0])),
                Box::new(LabelTypeView::from_list(labels.drop_first())),
            )
        }
    }

    /// Entailment between label constraints.
    pub open spec fn subtype(self, other: LabelTypeView) -> bool
        decreases self, other,
    {
        match (self, other) {
            (LabelTypeView::Star, _) => true,
            (_, LabelTypeView::Star) => true,
            (_, LabelTypeView::Top) => true,
            (LabelTypeView::Empty, _) => true,
            (LabelTypeView::Label(a), LabelTypeView::Label(b)) => a == b,
            (_, LabelTypeView::And(a, b)) => self.subtype(*a) && self.subtype(*b),
            (LabelTypeView::And(a, b), _) => a.subtype(other) || b.subtype(other),
            (_, LabelTypeView::Or(a, b)) => self.subtype(*a) || self.subtype(*b),
            (_, LabelTypeView::Neg(inner)) => !self.subtype(*inner),
            _ => false,
        }
    }

    /// Greatest lower bound: a wildcard or the weaker side gives way, and two
    /// unrelated constraints are conjoined.
    pub open spec fn meet(self, other: LabelTypeView) -> LabelTypeView {
        if self is Star {
            other
        } else if other is Star {
            self
        } else if self is Top {
            other
        } else if other is Top {
            self
        } else if self.subtype(other) {
            self
        } else if other.subtype(self) {
            other
        } else {
            LabelTypeView::And(Box::new(self), Box::new(other))
        }
    }

    /// The labels that a conjunction demands, from left to right.
    pub open spec fn required(self) -> Seq<Seq<char>>
        decreases self,
    {
        match self {
            LabelTypeView::Label(s) => seq![s],
            LabelTypeView::And(a, b) => a.required() + b.required(),
            _ => Seq::empty(),
        }
    }

    /// A plain conjunction of labels.
    pub open spec fn is_conjunction(self) -> bool
        decreases self,
    {
        match self {
            LabelTypeView::Label(_) => true,
            LabelTypeView::And(a, b) => a.is_conjunction() && b.is_conjunction(),
            _ => false,
        }
    }

    /// The printed form.
    pub open spec fn text(self) -> Seq<char>
        decreases self,
    {
        match self {
            LabelTypeView::Label(s) => s,
            LabelTypeView::Star => "*"@,
            LabelTypeView::Top => "⊤"@,
            LabelTypeView::Empty => "ε"@,
            LabelTypeView::And(a, b) => "("@ + a.text() + " & "@ + b.text() + ")"@,
            LabelTypeView::Or(a, b) => "("@ + a.text() + " | "@ + b.text() + ")"@,
            LabelTypeView::Neg(a) => "!("@ + a.text() + ")"@,
        }
    }
}

impl Clone for LabelType {
    fn clone(&self) -> (r: Self)
        ensures
            r@ == self@,
        decreases self,
    {
        match self {
            LabelType::Label(s) => LabelType::Label(s.clone()),
            LabelType::Star => LabelType::Star,
            LabelType::Top => LabelType::Top,
            LabelType::Empty => LabelType::Empty,
            LabelType::And(a, b) => LabelType::And(
                Box::new((**a).clone()),
                Box::new((**b).clone()),
            ),
            LabelType::Or(a, b) => LabelType::Or(Box::new((**a).clone()), Box::new((**b).clone())),
            LabelType::Neg(a) => LabelType::Neg(Box::new((**a).clone())),
        }
    }
}

impl LabelType {
    /// The value, with strings taken by their contents.
    pub open spec fn view(&self) -> LabelTypeView
        decreases self,
    {
        match self {
            LabelType::Label(s) => LabelTypeView::Label(s@),
            LabelType::Star => LabelTypeView::Star,
            LabelType::Top => LabelTypeView::Top,
            LabelType::Empty => LabelTypeView::Empty,
            LabelType::And(a, b) => LabelTypeView::And(Box::new(a.view()), Box::new(b.view())),
            LabelType::Or(a, b) => LabelTypeView::Or(Box::new(a.view()), Box::new(b.view())),
            LabelType::Neg(a) => LabelTypeView::Neg(Box::new(a.view())),
        }
    }

    /// Whether two label types are equal.
    pub fn same(&self, other: &LabelType) -> (r: bool)
        ensures
            r == (self@ == other@),
        decreases self,
    {
        match (self, other) {
            (LabelType::Label(a), LabelType::Label(b)) => same_text(a.as_str(), b.as_str()),
            (LabelType::Star, LabelType::Star) => true,
            (LabelType::Top, LabelType::Top) => true,
            (LabelType::Empty, LabelType::Empty) => true,
            (LabelType::And(a, b), LabelType::And(c, d)) => a.same(c) && b.same(d),
            (LabelType::Or(a, b), LabelType::Or(c, d)) => a.same(c) && b.same(d),
            (LabelType::Neg(a), LabelType::Neg(b)) => a.same(b),
            _ => false,
        }
    }

    /// The conjunction of the labels: `["A", "B", "C"]` gives `A & (B & C)`.
    pub fn from_list(labels: &[String]) -> (r: LabelType)
        requires
            labels@.len() > 0,
        ensures
            r@ == LabelTypeView::from_list(crate::text::texts(labels@)),
        decreases labels@.len(),
    {
        if labels.len() == 1 {
            LabelType::Label(labels[0].clone())
        } else {
            let rest = vstd::slice::slice_subrange(labels, 1, labels.len());
            assert(crate::text::texts(rest@) =~= crate::text::texts(labels@).drop_first());
            let first = LabelType::Label(labels[0].clone());
            assert(first@ == LabelTypeView::Label(crate::text::texts(labels@)[0]));
            LabelType::And(Box::new(first), Box::new(LabelType::from_list(rest)))
        }
    }

    /// Greatest lower bound under entailment.
    pub fn meet(a: &LabelType, b: &LabelType) -> (r: LabelType)
        ensures
            r@ == a@.meet(b@),
    {
        match (a, b) {
            (LabelType::Star, _) => b.clone(),
            (_, LabelType::Star) => a.clone(),
            (LabelType::Top, _) => b.clone(),
            (_, LabelType::Top) => a.clone(),
            _ => {
                if LabelType::is_subtype(a, b) {
                    a.clone()
                } else if LabelType::is_subtype(b, a) {
                    b.clone()
                } else {
                    LabelType::And(Box::new(a.clone()), Box::new(b.clone()))
                }
            },
        }
    }

    /// Entailment.
    pub fn is_subtype(l1: &LabelType, l2: &LabelType) -> (r: bool)
        ensures
            r == l1@.subtype(l2@),
        decreases l1, l2,
    {
        match (l1, l2) {
            (LabelType::Star, _) => true,
            (_, LabelType::Star) => true,
            (_, LabelType::Top) => true,
            (LabelType::Empty, _) => true,
            (LabelType::Label(a), LabelType::Label(b)) => same_text(a.as_str(), b.as_str()),
            (_, LabelType::And(a, b)) => LabelType::is_subtype(l1, a) && LabelType::is_subtype(
                l1,
                b,
            ),
            (LabelType::And(a, b), _) => LabelType::is_subtype(a, l2) || LabelType::is_subtype(
                b,
                l2,
            ),
            (_, LabelType::Or(a, b)) => LabelType::is_subtype(l1, a) || LabelType::is_subtype(
                l1,
                b,
            ),
            (_, LabelType::Neg(inner)) => !LabelType::is_subtype(l1, inner),
            _ => false,
        }
    }

    /// Whether a label type is contradictory. Contradictions such as
    /// `A & !A` are not detected: the answer is always `false`.
    pub fn is_empty(_l: &LabelType) -> (r: bool)
        ensures
            !r,
    {
        false
    }

    /// The name of a single label.
    pub fn as_simple_label(&self) -> (r: Option<&str>)
        ensures
            match r {
                Some(s) => self@ == LabelTypeView::Label(s@),
                None => !(self@ is Label),
            },
    {
        match self {
            LabelType::Label(s) => Some(s.as_str()),
            _ => None,
        }
    }

    /// Whether the label is a plain conjunction of labels.
    pub fn is_conjunction(&self) -> (r: bool)
        ensures
            r == self@.is_conjunction(),
        decreases self,
    {
        match self {
            LabelType::Label(_) => true,
            LabelType::And(a, b) => a.is_conjunction() && b.is_conjunction(),
            _ => false,
        }
    }

    /// The labels that must all be present. Labels under a disjunction or a
    /// negation do not count.
    pub fn required_labels(&self) -> (r: Vec<&str>)
        ensures
            r@.len() == self@.required().len(),
            forall|i: int| 0 <= i < r@.len() ==> (#[trigger] r@[i])@ == self@.required()[i],
        decreases self,
    {
        match self {
            LabelType::Label(s) => {
                let mut v: Vec<&str> = Vec::new();
                v.push(s.as_str());
                v
            },
            LabelType::And(a, b) => {
                let mut v = a.required_labels();
                let mut w = b.required_labels();
                v.append(&mut w);
                v
            },
            _ => Vec::new(),
        }
    }

    /// The printed form.
    pub fn to_string(&self) -> (r: String)
        ensures
            r@ == self@.text(),
        decreases self,
    {
        match self {
            LabelType::Label(s) => s.clone(),
            LabelType::Star => copy_text("*"),
            LabelType::Top => copy_text("⊤"),
            LabelType::Empty => copy_text("ε"),
            LabelType::And(a, b) => {
                let mut s = copy_text("(");
                s.append(a.to_string().as_str());
                s.append(" & ");
                s.append(b.to_string().as_str());
                s.append(")");
                s
            },
            LabelType::Or(a, b) => {
                let mut s = copy_text("(");
                s.append(a.to_string().as_str());
                s.append(" | ");
                s.append(b.to_string().as_str());
                s.append(")");
                s
            },
            LabelType::Neg(a) => {
                let mut s = copy_text("!(");
                s.append(a.to_string().as_str());
                s.append(")");
                s
            },
        }
    }
}

impl LabelTypeView {
    /// A conjunction of labels demands exactly these.
    pub proof fn from_list_required(labels: Seq<Seq<char>>)
        requires
            labels.len() > 0,
        ensures
            LabelTypeView::from_list(labels).required() == labels,
        decreases labels.len(),
    {
        let first = LabelTypeView::Label(labels[0]);
        assert(first.required() == seq![labels[0]]);
        if labels.len() == 1 {
            assert(seq![labels[0]] =~= labels);
        } else {
            Self::from_list_required(labels.drop_first());
            assert(seq![labels[0]] + labels.drop_first() =~= labels);
        }
    }
}

/// No label is a subtype of everything.
pub proof fn empty_below_all(l: LabelTypeView)
    ensures
        LabelTypeView::Empty.subtype(l),
{
}

/// A plain conjunction demands at least one label.
pub proof fn conjunction_demands(l: LabelTypeView)
    requires
        l.is_conjunction(),
    ensures
        l.required().len() > 0,
    decreases l,
{
    match l {
        LabelTypeView::And(a, _) => {
            conjunction_demands(*a);
        },
        _ => {},
    }
}

/// Whether `a` demands every label that `b` demands.
pub open spec fn demands_all(a: LabelTypeView, b: LabelTypeView) -> bool {
    forall|x: Seq<char>| #[trigger] b.required().contains(x) ==> a.required().contains(x)
}

/// A joined list holds what either part holds.
proof fn joined_holds(p: Seq<Seq<char>>, q: Seq<Seq<char>>, x: Seq<char>)
    ensures
        (p + q).contains(x) <==> p.contains(x) || q.contains(x),
{
    if p.contains(x) {
        let i = choose|i: int| 0 <= i < p.len() && p[i] == x;
        assert((p + q)[i] == x);
    }
    if q.contains(x) {
        let i = choose|i: int| 0 <= i < q.len() && q[i] == x;
        assert((p + q)[p.len() + i] == x);
    }
    if (p + q).contains(x) {
        let i = choose|i: int| 0 <= i < (p + q).len() && (p + q)[i] == x;
        if i < p.len() {
            assert(p[i] == x);
        } else {
            assert(q[i - p.len()] == x);
        }
    }
}

/// A plain conjunction entails another exactly where it demands every label of
/// it.
pub proof fn conjunction_entails(a: LabelTypeView, b: LabelTypeView)
    requires
        a.is_conjunction(),
        b.is_conjunction(),
    ensures
        a.subtype(b) <==> demands_all(a, b),
    decreases a, b,
{
    match (a, b) {
        (_, LabelTypeView::And(p, q)) => {
            conjunction_entails(a, *p);
            conjunction_entails(a, *q);
            assert forall|x: Seq<char>|
                b.required().contains(x) <==> p.required().contains(x) || q.required().contains(
                    x,
                ) by {
                joined_holds(p.required(), q.required(), x);
            }
        },
        (LabelTypeView::And(p, q), LabelTypeView::Label(y)) => {
            conjunction_entails(*p, b);
            conjunction_entails(*q, b);
            assert(b.required() == seq![y]);
            assert(seq![y][0] == y);
            assert(b.required().contains(y));
            joined_holds(p.required(), q.required(), y);
        },
        (LabelTypeView::Label(x), LabelTypeView::Label(y)) => {
            assert(seq![x][0] == x);
            assert(seq![y][0] == y);
            assert(b.required().contains(y));
        },
        _ => {},
    }
}

/// The meet of two plain conjunctions is a plain conjunction, and their greatest
/// lower bound among these.
pub proof fn conjunctions_meet(a: LabelTypeView, b: LabelTypeView, c: LabelTypeView)
    requires
        a.is_conjunction(),
        b.is_conjunction(),
        c.is_conjunction(),
    ensures
        a.meet(b).is_conjunction(),
        a.meet(b).subtype(a),
        a.meet(b).subtype(b),
        c.subtype(a.meet(b)) <==> c.subtype(a) && c.subtype(b),
{
    let m = a.meet(b);
    conjunction_entails(a, b);
    conjunction_entails(b, a);
    conjunction_entails(m, a);
    conjunction_entails(m, b);
    conjunction_entails(c, a);
    conjunction_entails(c, b);
    conjunction_entails(c, m);
    assert forall|x: Seq<char>|
        m.required().contains(x) <==> a.required().contains(x) || b.required().contains(x) by {
        joined_holds(a.required(), b.required(), x);
    }
}

} // verus!
