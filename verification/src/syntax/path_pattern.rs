//! Path patterns.

use vstd::prelude::*;

use super::descriptor::Descriptor;
use super::expr::Expr;
use super::path_prefix::PathPrefix;
use crate::fields::NameSet;
use crate::text::{copy_text, text_of_usize};

verus! {

/// A pattern of nodes and edges.
#[derive(Debug, PartialEq)]
pub enum PathPattern {
    Node(Option<Descriptor>),
    EdgeRight(Option<Descriptor>),
    EdgeLeft(Option<Descriptor>),
    EdgeUndirected(Option<Descriptor>),
    EdgeAnyDirection(Option<Descriptor>),
    Concat(Box<PathPattern>, Box<PathPattern>),
    Union(Box<PathPattern>, Box<PathPattern>),
    Filter(Box<PathPattern>, Expr),
    Repeat { pattern: Box<PathPattern>, lb: usize, ub: Option<usize> },
    Questioned(Box<PathPattern>),
    /// The rows of both patterns whose bindings agree.
    Join(Box<PathPattern>, Box<PathPattern>),
    /// A mode and a search for one operand.
    Selected { prefix: PathPrefix, pattern: Box<PathPattern> },
    /// Binds the matched path to a variable.
    Named { var: String, pattern: Box<PathPattern> },
}

/// The variable that a descriptor binds.
pub open spec fn bound(d: Option<Descriptor>) -> Set<Seq<char>> {
    match d {
        Some(d) => match d.var {
            Some(v) => set![v@],
            None => Set::empty(),
        },
        None => Set::empty(),
    }
}

/// A descriptor between an opening and a closing, or the short form.
pub open spec fn bracketed(
    d: Option<Descriptor>,
    open: Seq<char>,
    close: Seq<char>,
    short: Seq<char>,
) -> Seq<char> {
    match d {
        Some(d) => open + d.text() + close,
        None => short,
    }
}

fn bracketed_text(d: &Option<Descriptor>, open: &str, close: &str, short: &str) -> (r: String)
    ensures
        r@ == bracketed(*d, open@, close@, short@),
{
    match d {
        Some(d) => {
            let mut s = copy_text(open);
            s.append(d.to_string().as_str());
            s.append(close);
            s
        },
        None => copy_text(short),
    }
}

fn bound_vars(d: &Option<Descriptor>) -> (r: NameSet)
    ensures
        r@ == bound(*d),
{
    let mut s = NameSet::new();
    if let Some(d) = d {
        if let Some(v) = &d.var {
            s.insert(v.clone());
        }
    }
    assert(s@ =~= bound(*d));
    s
}

impl PathPattern {
    /// The variables of nodes and edges. The variable of a whole path is not
    /// among them.
    pub open spec fn vars(self) -> Set<Seq<char>>
        decreases self,
    {
        match self {
            PathPattern::Node(d) => bound(d),
            PathPattern::EdgeRight(d) => bound(d),
            PathPattern::EdgeLeft(d) => bound(d),
            PathPattern::EdgeUndirected(d) => bound(d),
            PathPattern::EdgeAnyDirection(d) => bound(d),
            PathPattern::Concat(a, b) => a.vars().union(b.vars()),
            PathPattern::Union(a, b) => a.vars().union(b.vars()),
            PathPattern::Join(a, b) => a.vars().union(b.vars()),
            PathPattern::Filter(p, _) => p.vars(),
            PathPattern::Repeat { pattern, .. } => pattern.vars(),
            PathPattern::Questioned(p) => p.vars(),
            PathPattern::Selected { pattern, .. } => pattern.vars(),
            PathPattern::Named { pattern, .. } => pattern.vars(),
        }
    }

    /// A prefix occurs in the pattern.
    pub open spec fn selects(self) -> bool
        decreases self,
    {
        match self {
            PathPattern::Selected { .. } => true,
            PathPattern::Concat(a, b) => a.selects() || b.selects(),
            PathPattern::Union(a, b) => a.selects() || b.selects(),
            PathPattern::Join(a, b) => a.selects() || b.selects(),
            PathPattern::Filter(p, _) => p.selects(),
            PathPattern::Repeat { pattern, .. } => pattern.selects(),
            PathPattern::Questioned(p) => p.selects(),
            PathPattern::Named { pattern, .. } => pattern.selects(),
            _ => false,
        }
    }

    /// An undirected edge occurs in the pattern.
    pub open spec fn undirected(self) -> bool
        decreases self,
    {
        match self {
            PathPattern::EdgeUndirected(_) => true,
            PathPattern::Concat(a, b) => a.undirected() || b.undirected(),
            PathPattern::Union(a, b) => a.undirected() || b.undirected(),
            PathPattern::Join(a, b) => a.undirected() || b.undirected(),
            PathPattern::Filter(p, _) => p.undirected(),
            PathPattern::Repeat { pattern, .. } => pattern.undirected(),
            PathPattern::Questioned(p) => p.undirected(),
            PathPattern::Selected { pattern, .. } => pattern.undirected(),
            PathPattern::Named { pattern, .. } => pattern.undirected(),
            _ => false,
        }
    }

    /// The lower bounds of the unbounded repetitions, outermost first and
    /// from left to right.
    pub open spec fn unbounded_lbs(self) -> Seq<usize>
        decreases self,
    {
        match self {
            PathPattern::Concat(a, b) => a.unbounded_lbs() + b.unbounded_lbs(),
            PathPattern::Union(a, b) => a.unbounded_lbs() + b.unbounded_lbs(),
            PathPattern::Join(a, b) => a.unbounded_lbs() + b.unbounded_lbs(),
            PathPattern::Filter(p, _) => p.unbounded_lbs(),
            PathPattern::Repeat { pattern, lb, ub } => if ub is None {
                seq![lb] + pattern.unbounded_lbs()
            } else {
                pattern.unbounded_lbs()
            },
            PathPattern::Questioned(p) => p.unbounded_lbs(),
            PathPattern::Selected { pattern, .. } => pattern.unbounded_lbs(),
            PathPattern::Named { pattern, .. } => pattern.unbounded_lbs(),
            _ => Seq::empty(),
        }
    }

    /// The printed form, with floating-point numbers as they are shown.
    pub open spec fn text(self, shown: spec_fn(u64) -> Seq<char>) -> Seq<char>
        decreases self,
    {
        match self {
            PathPattern::Node(d) => bracketed(d, "("@, ")"@, "()"@),
            PathPattern::EdgeRight(d) => bracketed(d, "-["@, "]->"@, "-->"@),
            PathPattern::EdgeLeft(d) => bracketed(d, "<-["@, "]-"@, "<--"@),
            PathPattern::EdgeUndirected(d) => bracketed(d, "~["@, "]~"@, "~~"@),
            PathPattern::EdgeAnyDirection(d) => bracketed(d, "-["@, "]-"@, "--"@),
            PathPattern::Concat(a, b) => a.text(shown) + " "@ + b.text(shown),
            PathPattern::Union(a, b) => "("@ + a.text(shown) + " | "@ + b.text(shown) + ")"@,
            PathPattern::Filter(p, e) => p.text(shown) + " WHERE "@ + e.text(shown),
            PathPattern::Repeat { pattern, lb, ub } => match ub {
                Some(ub) => "("@ + pattern.text(shown) + "){"@ + crate::text::decimal(lb as nat)
                    + ","@ + crate::text::decimal(ub as nat) + "}"@,
                None => "("@ + pattern.text(shown) + "){"@ + crate::text::decimal(lb as nat)
                    + ",}"@,
            },
            PathPattern::Questioned(p) => "("@ + p.text(shown) + ")?"@,
            PathPattern::Join(a, b) => a.text(shown) + ", "@ + b.text(shown),
            PathPattern::Selected { prefix, pattern } => prefix.text() + " "@ + pattern.text(shown),
            PathPattern::Named { var, pattern } => var@ + " = "@ + pattern.text(shown),
        }
    }

    /// The variables of nodes and edges.
    pub fn freevars(&self) -> (r: NameSet)
        ensures
            r@ == self.vars(),
        decreases self,
    {
        match self {
            PathPattern::Node(d) => bound_vars(d),
            PathPattern::EdgeRight(d) => bound_vars(d),
            PathPattern::EdgeLeft(d) => bound_vars(d),
            PathPattern::EdgeUndirected(d) => bound_vars(d),
            PathPattern::EdgeAnyDirection(d) => bound_vars(d),
            PathPattern::Concat(a, b) => {
                let mut s = a.freevars();
                s.extend(&b.freevars());
                s
            },
            PathPattern::Union(a, b) => {
                let mut s = a.freevars();
                s.extend(&b.freevars());
                s
            },
            PathPattern::Join(a, b) => {
                let mut s = a.freevars();
                s.extend(&b.freevars());
                s
            },
            PathPattern::Filter(p, _) => p.freevars(),
            PathPattern::Repeat { pattern, .. } => pattern.freevars(),
            PathPattern::Questioned(p) => p.freevars(),
            PathPattern::Selected { pattern, .. } => pattern.freevars(),
            PathPattern::Named { pattern, .. } => pattern.freevars(),
        }
    }

    /// Whether a prefix occurs in the pattern.
    pub fn has_selected(&self) -> (r: bool)
        ensures
            r == self.selects(),
        decreases self,
    {
        match self {
            PathPattern::Selected { .. } => true,
            PathPattern::Concat(a, b) => a.has_selected() || b.has_selected(),
            PathPattern::Union(a, b) => a.has_selected() || b.has_selected(),
            PathPattern::Join(a, b) => a.has_selected() || b.has_selected(),
            PathPattern::Filter(p, _) => p.has_selected(),
            PathPattern::Repeat { pattern, .. } => pattern.has_selected(),
            PathPattern::Questioned(p) => p.has_selected(),
            PathPattern::Named { pattern, .. } => pattern.has_selected(),
            _ => false,
        }
    }

    /// Whether an undirected edge occurs in the pattern.
    pub fn has_undirected_edge(&self) -> (r: bool)
        ensures
            r == self.undirected(),
        decreases self,
    {
        match self {
            PathPattern::EdgeUndirected(_) => true,
            PathPattern::Concat(a, b) => a.has_undirected_edge() || b.has_undirected_edge(),
            PathPattern::Union(a, b) => a.has_undirected_edge() || b.has_undirected_edge(),
            PathPattern::Join(a, b) => a.has_undirected_edge() || b.has_undirected_edge(),
            PathPattern::Filter(p, _) => p.has_undirected_edge(),
            PathPattern::Repeat { pattern, .. } => pattern.has_undirected_edge(),
            PathPattern::Questioned(p) => p.has_undirected_edge(),
            PathPattern::Selected { pattern, .. } => pattern.has_undirected_edge(),
            PathPattern::Named { pattern, .. } => pattern.has_undirected_edge(),
            _ => false,
        }
    }

    /// The descriptor of a node or edge pattern.
    pub open spec fn own_descriptor(self) -> Option<Descriptor> {
        match self {
            PathPattern::Node(d) => d,
            PathPattern::EdgeRight(d) => d,
            PathPattern::EdgeLeft(d) => d,
            PathPattern::EdgeUndirected(d) => d,
            PathPattern::EdgeAnyDirection(d) => d,
            _ => None,
        }
    }

    /// The descriptor of a node or edge pattern.
    pub fn descriptor(&self) -> (r: Option<&Descriptor>)
        ensures
            match r {
                Some(d) => self.own_descriptor() == Some(*d),
                None => self.own_descriptor() is None,
            },
    {
        match self {
            PathPattern::Node(d) => d.as_ref(),
            PathPattern::EdgeRight(d) => d.as_ref(),
            PathPattern::EdgeLeft(d) => d.as_ref(),
            PathPattern::EdgeUndirected(d) => d.as_ref(),
            PathPattern::EdgeAnyDirection(d) => d.as_ref(),
            _ => None,
        }
    }

    /// The lower bounds of the unbounded repetitions.
    pub fn unbounded_repeat_lbs(&self) -> (r: Vec<usize>)
        ensures
            r@ == self.unbounded_lbs(),
    {
        let mut out: Vec<usize> = Vec::new();
        self.collect_unbounded_lbs(&mut out);
        assert(out@ =~= self.unbounded_lbs());
        out
    }

    fn collect_unbounded_lbs(&self, out: &mut Vec<usize>)
        ensures
            final(out)@ == old(out)@ + self.unbounded_lbs(),
        decreases self,
    {
        match self {
            PathPattern::Concat(a, b) => {
                a.collect_unbounded_lbs(out);
                b.collect_unbounded_lbs(out);
            },
            PathPattern::Union(a, b) => {
                a.collect_unbounded_lbs(out);
                b.collect_unbounded_lbs(out);
            },
            PathPattern::Join(a, b) => {
                a.collect_unbounded_lbs(out);
                b.collect_unbounded_lbs(out);
            },
            PathPattern::Filter(p, _) => {
                p.collect_unbounded_lbs(out);
            },
            PathPattern::Questioned(p) => {
                p.collect_unbounded_lbs(out);
            },
            PathPattern::Selected { pattern, .. } => {
                pattern.collect_unbounded_lbs(out);
            },
            PathPattern::Named { pattern, .. } => {
                pattern.collect_unbounded_lbs(out);
            },
            PathPattern::Repeat { pattern, lb, ub } => {
                if ub.is_none() {
                    out.push(*lb);
                }
                pattern.collect_unbounded_lbs(out);
            },
            _ => {},
        }
        assert(out@ =~= old(out)@ + self.unbounded_lbs());
    }

    /// The printed form, with floating-point numbers as a function prints them.
    pub fn to_string<F: Fn(u64) -> String>(&self, show: &F) -> (r: String)
        requires
            crate::model::float_text::prints_floats(*show),
        ensures
            r@ == self.text(crate::model::float_text::float_texts(*show)),
        decreases self,
    {
        match self {
            PathPattern::Node(d) => bracketed_text(d, "(", ")", "()"),
            PathPattern::EdgeRight(d) => bracketed_text(d, "-[", "]->", "-->"),
            PathPattern::EdgeLeft(d) => bracketed_text(d, "<-[", "]-", "<--"),
            PathPattern::EdgeUndirected(d) => bracketed_text(d, "~[", "]~", "~~"),
            PathPattern::EdgeAnyDirection(d) => bracketed_text(d, "-[", "]-", "--"),
            PathPattern::Concat(a, b) => {
                let mut s = a.to_string(show);
                s.append(" ");
                s.append(b.to_string(show).as_str());
                s
            },
            PathPattern::Union(a, b) => {
                let mut s = copy_text("(");
                s.append(a.to_string(show).as_str());
                s.append(" | ");
                s.append(b.to_string(show).as_str());
                s.append(")");
                s
            },
            PathPattern::Filter(p, e) => {
                let mut s = p.to_string(show);
                s.append(" WHERE ");
                s.append(e.to_string(show).as_str());
                s
            },
            PathPattern::Repeat { pattern, lb, ub } => {
                let mut s = copy_text("(");
                s.append(pattern.to_string(show).as_str());
                s.append("){");
                s.append(text_of_usize(*lb).as_str());
                match ub {
                    Some(ub) => {
                        s.append(",");
                        s.append(text_of_usize(*ub).as_str());
                        s.append("}");
                    },
                    None => {
                        s.append(",}");
                    },
                }
                s
            },
            PathPattern::Questioned(p) => {
                let mut s = copy_text("(");
                s.append(p.to_string(show).as_str());
                s.append(")?");
                s
            },
            PathPattern::Join(a, b) => {
                let mut s = a.to_string(show);
                s.append(", ");
                s.append(b.to_string(show).as_str());
                s
            },
            PathPattern::Selected { prefix, pattern } => {
                let mut s = prefix.to_string();
                s.append(" ");
                s.append(pattern.to_string(show).as_str());
                s
            },
            PathPattern::Named { var, pattern } => {
                let mut s = var.clone();
                s.append(" = ");
                s.append(pattern.to_string(show).as_str());
                s
            },
        }
    }
}

} // verus!
