//! Expressions.

use vstd::prelude::*;

use super::query::{Aggregator, MatchStatement, Query};
use crate::fields::{same_keys, NameSet};
use crate::model::value::{Value, ValueView};
use crate::text::{copy_text, join_texts, same_text};
use crate::typing::simple_type::{SimpleType, SimpleTypeView};

verus! {

/// Binary operators.
#[derive(Debug, Clone, Copy, PartialEq, Eq, Structural)]
pub enum BinOp {
    Add,
    Sub,
    Mul,
    Div,
    Mod,
    Lt,
    Gt,
    Le,
    Ge,
    Eq,
    Ne,
    And,
    Or,
    Is,
    As,
    In,
}

/// Unary operators.
#[derive(Debug, Clone, Copy, PartialEq, Eq, Structural)]
pub enum UnOp {
    Neg,
    Not,
}

/// The type of numbers.
pub open spec fn number_type() -> SimpleTypeView {
    SimpleTypeView::Union(Box::new(SimpleTypeView::Z), Box::new(SimpleTypeView::F))
}

fn number() -> (r: SimpleType)
    ensures
        r@ == number_type(),
{
    let z = SimpleType::Z;
    let f = SimpleType::F;
    assert(z@ == SimpleTypeView::Z && f@ == SimpleTypeView::F);
    SimpleType::Union(Box::new(z), Box::new(f))
}

impl BinOp {
    /// The expected operand types and the result type.
    pub open spec fn signature(self, ty1: SimpleTypeView, ty2: SimpleTypeView) -> (
        SimpleTypeView,
        SimpleTypeView,
        SimpleTypeView,
    ) {
        match self {
            BinOp::Add | BinOp::Sub | BinOp::Mul | BinOp::Div => (
                number_type(),
                number_type(),
                number_type(),
            ),
            BinOp::Mod => (SimpleTypeView::Z, SimpleTypeView::Z, SimpleTypeView::Z),
            BinOp::Lt | BinOp::Gt | BinOp::Le | BinOp::Ge => (
                number_type(),
                number_type(),
                SimpleTypeView::B,
            ),
            BinOp::Eq | BinOp::Ne => (ty1.meet(ty2), ty1.meet(ty2), SimpleTypeView::B),
            BinOp::And | BinOp::Or => (SimpleTypeView::B, SimpleTypeView::B, SimpleTypeView::B),
            BinOp::Is | BinOp::As => (
                SimpleTypeView::Star,
                SimpleTypeView::Star,
                SimpleTypeView::B,
            ),
            BinOp::In => (
                SimpleTypeView::Star,
                SimpleTypeView::List(Box::new(SimpleTypeView::Star)),
                SimpleTypeView::B,
            ),
        }
    }

    /// The expected left type, the expected right type and the result type.
    pub fn delta(&self, ty1: &SimpleType, ty2: &SimpleType) -> (r: (
        SimpleType,
        SimpleType,
        SimpleType,
    ))
        ensures
            (r.0@, r.1@, r.2@) == self.signature(ty1@, ty2@),
    {
        match self {
            BinOp::Add => (number(), number(), number()),
            BinOp::Sub => (number(), number(), number()),
            BinOp::Mul => (number(), number(), number()),
            BinOp::Div => (number(), number(), number()),
            BinOp::Mod => (SimpleType::Z, SimpleType::Z, SimpleType::Z),
            BinOp::Lt => (number(), number(), SimpleType::B),
            BinOp::Gt => (number(), number(), SimpleType::B),
            BinOp::Le => (number(), number(), SimpleType::B),
            BinOp::Ge => (number(), number(), SimpleType::B),
            BinOp::Eq => (SimpleType::meet(ty1, ty2), SimpleType::meet(ty1, ty2), SimpleType::B),
            BinOp::Ne => (SimpleType::meet(ty1, ty2), SimpleType::meet(ty1, ty2), SimpleType::B),
            BinOp::And => (SimpleType::B, SimpleType::B, SimpleType::B),
            BinOp::Or => (SimpleType::B, SimpleType::B, SimpleType::B),
            BinOp::Is => (SimpleType::Star, SimpleType::Star, SimpleType::B),
            BinOp::As => (SimpleType::Star, SimpleType::Star, SimpleType::B),
            BinOp::In => {
                let star = SimpleType::Star;
                assert(star@ == SimpleTypeView::Star);
                (SimpleType::Star, SimpleType::List(Box::new(star)), SimpleType::B)
            },
        }
    }

    /// The operator of a spelling.
    pub open spec fn parsed(s: Seq<char>) -> Option<BinOp> {
        if s == "+"@ {
            Some(BinOp::Add)
        } else if s == "-"@ {
            Some(BinOp::Sub)
        } else if s == "*"@ {
            Some(BinOp::Mul)
        } else if s == "/"@ {
            Some(BinOp::Div)
        } else if s == "MOD"@ || s == "mod"@ {
            Some(BinOp::Mod)
        } else if s == "<"@ {
            Some(BinOp::Lt)
        } else if s == ">"@ {
            Some(BinOp::Gt)
        } else if s == "<="@ {
            Some(BinOp::Le)
        } else if s == ">="@ {
            Some(BinOp::Ge)
        } else if s == "="@ {
            Some(BinOp::Eq)
        } else if s == "!="@ {
            Some(BinOp::Ne)
        } else if s == "and"@ {
            Some(BinOp::And)
        } else if s == "or"@ {
            Some(BinOp::Or)
        } else if s == "TYPED"@ || s == "typed"@ {
            Some(BinOp::Is)
        } else if s == "as"@ {
            Some(BinOp::As)
        } else if s == "in"@ {
            Some(BinOp::In)
        } else {
            None
        }
    }

    /// The operator that is written `s`.
    pub fn from_str(s: &str) -> (r: Result<BinOp, ()>)
        ensures
            match r {
                Ok(op) => BinOp::parsed(s@) == Some(op),
                Err(_) => BinOp::parsed(s@) is None,
            },
    {
        if same_text(s, "+") {
            Ok(BinOp::Add)
        } else if same_text(s, "-") {
            Ok(BinOp::Sub)
        } else if same_text(s, "*") {
            Ok(BinOp::Mul)
        } else if same_text(s, "/") {
            Ok(BinOp::Div)
        } else if same_text(s, "MOD") || same_text(s, "mod") {
            Ok(BinOp::Mod)
        } else if same_text(s, "<") {
            Ok(BinOp::Lt)
        } else if same_text(s, ">") {
            Ok(BinOp::Gt)
        } else if same_text(s, "<=") {
            Ok(BinOp::Le)
        } else if same_text(s, ">=") {
            Ok(BinOp::Ge)
        } else if same_text(s, "=") {
            Ok(BinOp::Eq)
        } else if same_text(s, "!=") {
            Ok(BinOp::Ne)
        } else if same_text(s, "and") {
            Ok(BinOp::And)
        } else if same_text(s, "or") {
            Ok(BinOp::Or)
        } else if same_text(s, "TYPED") || same_text(s, "typed") {
            Ok(BinOp::Is)
        } else if same_text(s, "as") {
            Ok(BinOp::As)
        } else if same_text(s, "in") {
            Ok(BinOp::In)
        } else {
            Err(())
        }
    }

    /// The spelling.
    pub open spec fn text(self) -> Seq<char> {
        match self {
            BinOp::Add => "+"@,
            BinOp::Sub => "-"@,
            BinOp::Mul => "*"@,
            BinOp::Div => "/"@,
            BinOp::Mod => "MOD"@,
            BinOp::Lt => "<"@,
            BinOp::Gt => ">"@,
            BinOp::Le => "<="@,
            BinOp::Ge => ">="@,
            BinOp::Eq => "="@,
            BinOp::Ne => "!="@,
            BinOp::And => "and"@,
            BinOp::Or => "or"@,
            BinOp::Is => "TYPED"@,
            BinOp::As => "as"@,
            BinOp::In => "in"@,
        }
    }

    /// The spelling.
    pub fn to_string(&self) -> (r: String)
        ensures
            r@ == self.text(),
    {
        match self {
            BinOp::Add => copy_text("+"),
            BinOp::Sub => copy_text("-"),
            BinOp::Mul => copy_text("*"),
            BinOp::Div => copy_text("/"),
            BinOp::Mod => copy_text("MOD"),
            BinOp::Lt => copy_text("<"),
            BinOp::Gt => copy_text(">"),
            BinOp::Le => copy_text("<="),
            BinOp::Ge => copy_text(">="),
            BinOp::Eq => copy_text("="),
            BinOp::Ne => copy_text("!="),
            BinOp::And => copy_text("and"),
            BinOp::Or => copy_text("or"),
            BinOp::Is => copy_text("TYPED"),
            BinOp::As => copy_text("as"),
            BinOp::In => copy_text("in"),
        }
    }

    /// The name of the variant.
    pub open spec fn name(self) -> Seq<char> {
        match self {
            BinOp::Add => "Add"@,
            BinOp::Sub => "Sub"@,
            BinOp::Mul => "Mul"@,
            BinOp::Div => "Div"@,
            BinOp::Mod => "Mod"@,
            BinOp::Lt => "Lt"@,
            BinOp::Gt => "Gt"@,
            BinOp::Le => "Le"@,
            BinOp::Ge => "Ge"@,
            BinOp::Eq => "Eq"@,
            BinOp::Ne => "Ne"@,
            BinOp::And => "And"@,
            BinOp::Or => "Or"@,
            BinOp::Is => "Is"@,
            BinOp::As => "As"@,
            BinOp::In => "In"@,
        }
    }

    /// The name of the variant, as diagnostics print it.
    pub fn variant_name(&self) -> (r: &'static str)
        ensures
            r@ == self.name(),
    {
        match self {
            BinOp::Add => "Add",
            BinOp::Sub => "Sub",
            BinOp::Mul => "Mul",
            BinOp::Div => "Div",
            BinOp::Mod => "Mod",
            BinOp::Lt => "Lt",
            BinOp::Gt => "Gt",
            BinOp::Le => "Le",
            BinOp::Ge => "Ge",
            BinOp::Eq => "Eq",
            BinOp::Ne => "Ne",
            BinOp::And => "And",
            BinOp::Or => "Or",
            BinOp::Is => "Is",
            BinOp::As => "As",
            BinOp::In => "In",
        }
    }
}

impl UnOp {
    /// The expected operand type and the result type.
    pub open spec fn signature(self) -> (SimpleTypeView, SimpleTypeView) {
        match self {
            UnOp::Neg => (number_type(), number_type()),
            UnOp::Not => (SimpleTypeView::B, SimpleTypeView::B),
        }
    }

    /// The expected operand type and the result type.
    pub fn delta(&self) -> (r: (SimpleType, SimpleType))
        ensures
            (r.0@, r.1@) == self.signature(),
    {
        match self {
            UnOp::Neg => (number(), number()),
            UnOp::Not => (SimpleType::B, SimpleType::B),
        }
    }

    /// The spelling.
    pub open spec fn text(self) -> Seq<char> {
        match self {
            UnOp::Neg => "-"@,
            UnOp::Not => "not"@,
        }
    }

    /// The spelling.
    pub fn to_string(&self) -> (r: String)
        ensures
            r@ == self.text(),
    {
        match self {
            UnOp::Neg => copy_text("-"),
            UnOp::Not => copy_text("not"),
        }
    }

    /// The name of the variant.
    pub open spec fn name(self) -> Seq<char> {
        match self {
            UnOp::Neg => "Neg"@,
            UnOp::Not => "Not"@,
        }
    }

    /// The name of the variant, as diagnostics print it.
    pub fn variant_name(&self) -> (r: &'static str)
        ensures
            r@ == self.name(),
    {
        match self {
            UnOp::Neg => "Neg",
            UnOp::Not => "Not",
        }
    }
}

/// An expression.
#[allow(inconsistent_fields)]
#[derive(Debug, PartialEq)]
pub enum Expr {
    Const(Value),
    /// A variable, standing for what it is bound to.
    Var(String),
    AttrLookup { var: String, attr: String },
    /// A field of a record value.
    FieldAccess { base: Box<Expr>, field: String },
    Binop { op: BinOp, left: Box<Expr>, right: Box<Expr> },
    Unop { op: UnOp, operand: Box<Expr> },
    IsNull { operand: Box<Expr>, negated: bool },
    /// The first argument that is not null.
    Coalesce(Vec<Expr>),
    /// A built-in function; the target of a CAST is a type argument.
    Call { name: String, args: Vec<Expr> },
    /// A record constructor, in source order.
    Record { fields: Vec<(String, Expr)> },
    /// The value that a correlated subquery yields.
    ValueSubquery { body: Box<Query> },
    Case { branches: Vec<(Expr, Expr)>, else_expr: Option<Box<Expr>> },
    ListComprehension {
        var: String,
        source: Box<Expr>,
        filter: Option<Box<Expr>>,
        body: Box<Expr>,
    },
    /// A type, on the right of `TYPED` and `as`.
    Type(SimpleType),
    Exists { body: Box<Query> },
    NotExists { body: Box<Query> },
    /// An aggregate inside an expression.
    Agg(Box<Aggregator>),
}

/// Whether `val` conforms to `ty`.
pub open spec fn conforms(val: ValueView, ty: SimpleTypeView) -> bool
    decreases ty,
{
    match (val, ty) {
        (ValueView::Str(_), SimpleTypeView::S) => true,
        (ValueView::Int(_), SimpleTypeView::Z) => true,
        (ValueView::Float(_), SimpleTypeView::F) => true,
        (ValueView::Bool(_), SimpleTypeView::B) => true,
        (ValueView::List(items), SimpleTypeView::List(elem)) => forall|i: int|
            0 <= i < items.len() ==> conforms(#[trigger] items[i], *elem),
        (ValueView::Record(v), SimpleTypeView::Record(t)) => {
            &&& v.dom() == t.dom()
            &&& forall|k: Seq<char>| #[trigger] t.contains_key(k) ==> conforms(v[k], t[k])
        },
        (ValueView::Node(_), SimpleTypeView::Node) => true,
        (ValueView::Edge(_), SimpleTypeView::Edge) => true,
        (ValueView::Path(_), SimpleTypeView::Path) => true,
        (_, SimpleTypeView::Star) => true,
        (_, SimpleTypeView::Union(a, b)) => conforms(val, *a) || conforms(val, *b),
        _ => false,
    }
}

impl Expr {
    /// An aggregate occurs outside subqueries.
    pub open spec fn has_agg(self) -> bool
        decreases self,
    {
        match self {
            Expr::Agg(_) => true,
            Expr::Binop { left, right, .. } => left.has_agg() || right.has_agg(),
            Expr::Unop { operand, .. } => operand.has_agg(),
            Expr::IsNull { operand, .. } => operand.has_agg(),
            Expr::FieldAccess { base, .. } => base.has_agg(),
            Expr::Coalesce(args) => exists|i: int|
                0 <= i < args@.len() && (#[trigger] args@[i]).has_agg(),
            Expr::Call { args, .. } => exists|i: int|
                0 <= i < args@.len() && (#[trigger] args@[i]).has_agg(),
            Expr::Case { branches, else_expr } => (exists|i: int|
                0 <= i < branches@.len() && ((#[trigger] branches@[i]).0.has_agg()
                    || branches@[i].1.has_agg())) || (match else_expr {
                Some(e) => e.has_agg(),
                None => false,
            }),
            Expr::Record { fields } => exists|i: int|
                0 <= i < fields@.len() && (#[trigger] fields@[i]).1.has_agg(),
            Expr::ListComprehension { source, filter, body, .. } => source.has_agg() || (
            match filter {
                Some(e) => e.has_agg(),
                None => false,
            }) || body.has_agg(),
            _ => false,
        }
    }

    /// A subquery occurs outside aggregates.
    pub open spec fn has_subquery(self) -> bool
        decreases self,
    {
        match self {
            Expr::Exists { .. } => true,
            Expr::NotExists { .. } => true,
            Expr::ValueSubquery { .. } => true,
            Expr::Binop { left, right, .. } => left.has_subquery() || right.has_subquery(),
            Expr::Unop { operand, .. } => operand.has_subquery(),
            Expr::IsNull { operand, .. } => operand.has_subquery(),
            Expr::FieldAccess { base, .. } => base.has_subquery(),
            Expr::Coalesce(args) => exists|i: int|
                0 <= i < args@.len() && (#[trigger] args@[i]).has_subquery(),
            Expr::Call { args, .. } => exists|i: int|
                0 <= i < args@.len() && (#[trigger] args@[i]).has_subquery(),
            Expr::Case { branches, else_expr } => (exists|i: int|
                0 <= i < branches@.len() && ((#[trigger] branches@[i]).0.has_subquery()
                    || branches@[i].1.has_subquery())) || (match else_expr {
                Some(e) => e.has_subquery(),
                None => false,
            }),
            Expr::Record { fields } => exists|i: int|
                0 <= i < fields@.len() && (#[trigger] fields@[i]).1.has_subquery(),
            Expr::ListComprehension { source, filter, body, .. } => source.has_subquery() || (
            match filter {
                Some(e) => e.has_subquery(),
                None => false,
            }) || body.has_subquery(),
            _ => false,
        }
    }

    /// The variables of several expressions.
    pub open spec fn vars_of(args: Seq<Expr>) -> Set<Seq<char>>
        decreases args,
    {
        if args.len() == 0 {
            Set::empty()
        } else {
            Expr::vars_of(args.drop_last()).union(args.last().vars())
        }
    }

    /// The variables of the branches of a CASE.
    pub open spec fn branch_vars(branches: Seq<(Expr, Expr)>) -> Set<Seq<char>>
        decreases branches,
    {
        if branches.len() == 0 {
            Set::empty()
        } else {
            Expr::branch_vars(branches.drop_last()).union(branches.last().0.vars()).union(
                branches.last().1.vars(),
            )
        }
    }

    /// The variables of the fields of a record.
    pub open spec fn field_vars(fields: Seq<(String, Expr)>) -> Set<Seq<char>>
        decreases fields,
    {
        if fields.len() == 0 {
            Set::empty()
        } else {
            Expr::field_vars(fields.drop_last()).union(fields.last().1.vars())
        }
    }

    /// The variables of the outer scope that the expression refers to. The
    /// variable of a list comprehension does not escape it, and subqueries
    /// and aggregates count for nothing.
    pub open spec fn vars(self) -> Set<Seq<char>>
        decreases self,
    {
        match self {
            Expr::Var(name) => set![name@],
            Expr::AttrLookup { var, .. } => set![var@],
            Expr::Binop { left, right, .. } => left.vars().union(right.vars()),
            Expr::Unop { operand, .. } => operand.vars(),
            Expr::IsNull { operand, .. } => operand.vars(),
            Expr::FieldAccess { base, .. } => base.vars(),
            Expr::Coalesce(args) => Expr::vars_of(args@),
            Expr::Call { args, .. } => Expr::vars_of(args@),
            Expr::Case { branches, else_expr } => match else_expr {
                Some(e) => Expr::branch_vars(branches@).union(e.vars()),
                None => Expr::branch_vars(branches@),
            },
            Expr::Record { fields } => Expr::field_vars(fields@),
            Expr::ListComprehension { var, source, filter, body } => source.vars().union(
                (match filter {
                    Some(e) => e.vars().union(body.vars()),
                    None => body.vars(),
                }).remove(var@),
            ),
            _ => Set::empty(),
        }
    }

    /// Equality of expressions without subqueries and aggregates; one that
    /// has any equals nothing.
    pub open spec fn plain_equal(self, other: Expr) -> bool
        decreases self,
    {
        match (self, other) {
            (Expr::Const(a), Expr::Const(b)) => a@.equals(b@),
            (Expr::Var(a), Expr::Var(b)) => a@ == b@,
            (
                Expr::AttrLookup { var: v1, attr: a1 },
                Expr::AttrLookup { var: v2, attr: a2 },
            ) => v1@ == v2@ && a1@ == a2@,
            (
                Expr::FieldAccess { base: b1, field: f1 },
                Expr::FieldAccess { base: b2, field: f2 },
            ) => b1.plain_equal(*b2) && f1@ == f2@,
            (
                Expr::Binop { op: o1, left: l1, right: r1 },
                Expr::Binop { op: o2, left: l2, right: r2 },
            ) => o1 == o2 && l1.plain_equal(*l2) && r1.plain_equal(*r2),
            (Expr::Unop { op: o1, operand: e1 }, Expr::Unop { op: o2, operand: e2 }) => o1 == o2
                && e1.plain_equal(*e2),
            (
                Expr::IsNull { operand: e1, negated: n1 },
                Expr::IsNull { operand: e2, negated: n2 },
            ) => n1 == n2 && e1.plain_equal(*e2),
            (Expr::Coalesce(a), Expr::Coalesce(b)) => a@.len() == b@.len() && forall|i: int|
                0 <= i < a@.len() ==> (#[trigger] a@[i]).plain_equal(b@[i]),
            (Expr::Call { name: n1, args: a }, Expr::Call { name: n2, args: b }) => n1@ == n2@
                && a@.len() == b@.len() && forall|i: int|
                0 <= i < a@.len() ==> (#[trigger] a@[i]).plain_equal(b@[i]),
            (Expr::Record { fields: a }, Expr::Record { fields: b }) => a@.len() == b@.len()
                && forall|i: int|
                0 <= i < a@.len() ==> (#[trigger] a@[i]).0@ == b@[i].0@ && a@[i].1.plain_equal(
                    b@[i].1,
                ),
            (
                Expr::Case { branches: a, else_expr: e1 },
                Expr::Case { branches: b, else_expr: e2 },
            ) => {
                &&& a@.len() == b@.len()
                &&& forall|i: int|
                    0 <= i < a@.len() ==> (#[trigger] a@[i]).0.plain_equal(b@[i].0)
                        && a@[i].1.plain_equal(b@[i].1)
                &&& match (e1, e2) {
                    (Some(x), Some(y)) => x.plain_equal(*y),
                    (None, None) => true,
                    _ => false,
                }
            },
            (
                Expr::ListComprehension { var: v1, source: s1, filter: f1, body: b1 },
                Expr::ListComprehension { var: v2, source: s2, filter: f2, body: b2 },
            ) => v1@ == v2@ && s1.plain_equal(*s2) && (match (f1, f2) {
                (Some(x), Some(y)) => x.plain_equal(*y),
                (None, None) => true,
                _ => false,
            }) && b1.plain_equal(*b2),
            (Expr::Type(a), Expr::Type(b)) => a@ == b@,
            _ => false,
        }
    }

    fn any_agg(args: &Vec<Expr>) -> (r: bool)
        ensures
            r == exists|i: int| 0 <= i < args@.len() && (#[trigger] args@[i]).has_agg(),
        decreases args,
    {
        let mut i: usize = 0;
        while i < args.len()
            invariant
                i <= args.len(),
                forall|j: int| 0 <= j < i ==> !(#[trigger] args@[j]).has_agg(),
            decreases args.len() - i,
        {
            if args[i].contains_agg() {
                return true;
            }
            i = i + 1;
        }
        false
    }

    /// Whether an aggregate occurs anywhere. A subquery reduces its own
    /// aggregates, so those do not count.
    pub fn contains_agg(&self) -> (r: bool)
        ensures
            r == self.has_agg(),
        decreases self,
    {
        match self {
            Expr::Agg(_) => true,
            Expr::Binop { left, right, .. } => left.contains_agg() || right.contains_agg(),
            Expr::Unop { operand, .. } => operand.contains_agg(),
            Expr::IsNull { operand, .. } => operand.contains_agg(),
            Expr::FieldAccess { base, .. } => base.contains_agg(),
            Expr::Coalesce(args) => Expr::any_agg(args),
            Expr::Call { args, .. } => Expr::any_agg(args),
            Expr::Case { branches, else_expr } => {
                let mut i: usize = 0;
                while i < branches.len()
                    invariant
                        i <= branches.len(),
                        self matches Expr::Case { branches: b2, .. } && b2 == branches,
                        forall|j: int|
                            0 <= j < i ==> !(#[trigger] branches@[j]).0.has_agg()
                                && !branches@[j].1.has_agg(),
                    decreases branches.len() - i,
                {
                    assert(decreases_to!(self => self->Case_branches));
                    assert(decreases_to!(branches@[i as int] => branches@[i as int].0));
                    assert(decreases_to!(branches@[i as int] => branches@[i as int].1));
                    if branches[i].0.contains_agg() || branches[i].1.contains_agg() {
                        assert(branches@[i as int].0.has_agg() || branches@[i as int].1.has_agg());
                        return true;
                    }
                    i = i + 1;
                }
                match else_expr {
                    Some(e) => e.contains_agg(),
                    None => false,
                }
            },
            Expr::Record { fields } => {
                let mut i: usize = 0;
                while i < fields.len()
                    invariant
                        i <= fields.len(),
                        self matches Expr::Record { fields: f2 } && f2 == fields,
                        forall|j: int| 0 <= j < i ==> !(#[trigger] fields@[j]).1.has_agg(),
                    decreases fields.len() - i,
                {
                    assert(decreases_to!(self => self->fields));
                    assert(decreases_to!(fields@[i as int] => fields@[i as int].1));
                    if fields[i].1.contains_agg() {
                        assert(fields@[i as int].1.has_agg());
                        return true;
                    }
                    i = i + 1;
                }
                false
            },
            Expr::ListComprehension { source, filter, body, .. } => {
                if source.contains_agg() {
                    return true;
                }
                let inner = match filter {
                    Some(e) => e.contains_agg(),
                    None => false,
                };
                inner || body.contains_agg()
            },
            Expr::Const(_) => false,
            Expr::Var(_) => false,
            Expr::AttrLookup { .. } => false,
            Expr::Type(_) => false,
            Expr::ValueSubquery { .. } => false,
            Expr::Exists { .. } => false,
            Expr::NotExists { .. } => false,
        }
    }

    fn any_subquery(args: &Vec<Expr>) -> (r: bool)
        ensures
            r == exists|i: int| 0 <= i < args@.len() && (#[trigger] args@[i]).has_subquery(),
        decreases args,
    {
        let mut i: usize = 0;
        while i < args.len()
            invariant
                i <= args.len(),
                forall|j: int| 0 <= j < i ==> !(#[trigger] args@[j]).has_subquery(),
            decreases args.len() - i,
        {
            if args[i].contains_subquery() {
                return true;
            }
            i = i + 1;
        }
        false
    }

    /// Whether a subquery occurs anywhere.
    pub fn contains_subquery(&self) -> (r: bool)
        ensures
            r == self.has_subquery(),
        decreases self,
    {
        match self {
            Expr::Exists { .. } => true,
            Expr::NotExists { .. } => true,
            Expr::ValueSubquery { .. } => true,
            Expr::Binop { left, right, .. } => left.contains_subquery()
                || right.contains_subquery(),
            Expr::Unop { operand, .. } => operand.contains_subquery(),
            Expr::IsNull { operand, .. } => operand.contains_subquery(),
            Expr::FieldAccess { base, .. } => base.contains_subquery(),
            Expr::Coalesce(args) => Expr::any_subquery(args),
            Expr::Call { args, .. } => Expr::any_subquery(args),
            Expr::Case { branches, else_expr } => {
                let mut i: usize = 0;
                while i < branches.len()
                    invariant
                        i <= branches.len(),
                        self matches Expr::Case { branches: b2, .. } && b2 == branches,
                        forall|j: int|
                            0 <= j < i ==> !(#[trigger] branches@[j]).0.has_subquery()
                                && !branches@[j].1.has_subquery(),
                    decreases branches.len() - i,
                {
                    assert(decreases_to!(self => self->Case_branches));
                    assert(decreases_to!(branches@[i as int] => branches@[i as int].0));
                    assert(decreases_to!(branches@[i as int] => branches@[i as int].1));
                    if branches[i].0.contains_subquery() || branches[i].1.contains_subquery() {
                        assert(branches@[i as int].0.has_subquery()
                            || branches@[i as int].1.has_subquery());
                        return true;
                    }
                    i = i + 1;
                }
                match else_expr {
                    Some(e) => e.contains_subquery(),
                    None => false,
                }
            },
            Expr::Record { fields } => {
                let mut i: usize = 0;
                while i < fields.len()
                    invariant
                        i <= fields.len(),
                        self matches Expr::Record { fields: f2 } && f2 == fields,
                        forall|j: int| 0 <= j < i ==> !(#[trigger] fields@[j]).1.has_subquery(),
                    decreases fields.len() - i,
                {
                    assert(decreases_to!(self => self->fields));
                    assert(decreases_to!(fields@[i as int] => fields@[i as int].1));
                    if fields[i].1.contains_subquery() {
                        assert(fields@[i as int].1.has_subquery());
                        return true;
                    }
                    i = i + 1;
                }
                false
            },
            Expr::ListComprehension { source, filter, body, .. } => {
                if source.contains_subquery() {
                    return true;
                }
                let inner = match filter {
                    Some(e) => e.contains_subquery(),
                    None => false,
                };
                inner || body.contains_subquery()
            },
            Expr::Const(_) => false,
            Expr::Var(_) => false,
            Expr::AttrLookup { .. } => false,
            Expr::Type(_) => false,
            Expr::Agg(_) => false,
        }
    }

    fn vars_of_all(args: &Vec<Expr>, acc: &mut NameSet)
        ensures
            final(acc)@ == old(acc)@.union(Expr::vars_of(args@)),
        decreases args,
    {
        let mut i: usize = 0;
        assert(acc@ =~= old(acc)@.union(Expr::vars_of(args@.take(0))));
        while i < args.len()
            invariant
                i <= args.len(),
                acc@ == old(acc)@.union(Expr::vars_of(args@.take(i as int))),
            decreases args.len() - i,
        {
            args[i].referenced_vars(acc);
            assert(args@.take(i + 1).drop_last() =~= args@.take(i as int));
            i = i + 1;
            assert(acc@ =~= old(acc)@.union(Expr::vars_of(args@.take(i as int))));
        }
        assert(args@.take(i as int) =~= args@);
    }

    /// Adds the variables of the outer scope that the expression refers to.
    pub fn referenced_vars(&self, acc: &mut NameSet)
        ensures
            final(acc)@ == old(acc)@.union(self.vars()),
        decreases self,
    {
        match self {
            Expr::Var(name) => {
                acc.insert(name.clone());
                assert(acc@ =~= old(acc)@.union(self.vars()));
            },
            Expr::AttrLookup { var, .. } => {
                acc.insert(var.clone());
                assert(acc@ =~= old(acc)@.union(self.vars()));
            },
            Expr::Binop { left, right, .. } => {
                left.referenced_vars(acc);
                right.referenced_vars(acc);
                assert(acc@ =~= old(acc)@.union(self.vars()));
            },
            Expr::Unop { operand, .. } => {
                operand.referenced_vars(acc);
            },
            Expr::IsNull { operand, .. } => {
                operand.referenced_vars(acc);
            },
            Expr::FieldAccess { base, .. } => {
                base.referenced_vars(acc);
            },
            Expr::Coalesce(args) => {
                Expr::vars_of_all(args, acc);
            },
            Expr::Call { args, .. } => {
                Expr::vars_of_all(args, acc);
            },
            Expr::Case { branches, else_expr } => {
                let mut i: usize = 0;
                assert(acc@ =~= old(acc)@.union(Expr::branch_vars(branches@.take(0))));
                while i < branches.len()
                    invariant
                        i <= branches.len(),
                        self matches Expr::Case { branches: b2, .. } && b2 == branches,
                        acc@ == old(acc)@.union(Expr::branch_vars(branches@.take(i as int))),
                    decreases branches.len() - i,
                {
                    assert(decreases_to!(self => self->Case_branches));
                    assert(decreases_to!(branches@[i as int] => branches@[i as int].0));
                    assert(decreases_to!(branches@[i as int] => branches@[i as int].1));
                    branches[i].0.referenced_vars(acc);
                    branches[i].1.referenced_vars(acc);
                    assert(branches@.take(i + 1).drop_last() =~= branches@.take(i as int));
                    i = i + 1;
                    assert(acc@ =~= old(acc)@.union(Expr::branch_vars(branches@.take(i as int))));
                }
                assert(branches@.take(i as int) =~= branches@);
                if let Some(e) = else_expr {
                    e.referenced_vars(acc);
                }
                assert(acc@ =~= old(acc)@.union(self.vars()));
            },
            Expr::Record { fields } => {
                let mut i: usize = 0;
                assert(acc@ =~= old(acc)@.union(Expr::field_vars(fields@.take(0))));
                while i < fields.len()
                    invariant
                        i <= fields.len(),
                        self matches Expr::Record { fields: f2 } && f2 == fields,
                        acc@ == old(acc)@.union(Expr::field_vars(fields@.take(i as int))),
                    decreases fields.len() - i,
                {
                    assert(decreases_to!(self => self->fields));
                    assert(decreases_to!(fields@[i as int] => fields@[i as int].1));
                    fields[i].1.referenced_vars(acc);
                    assert(fields@.take(i + 1).drop_last() =~= fields@.take(i as int));
                    i = i + 1;
                    assert(acc@ =~= old(acc)@.union(Expr::field_vars(fields@.take(i as int))));
                }
                assert(fields@.take(i as int) =~= fields@);
            },
            Expr::ListComprehension { var, source, filter, body } => {
                source.referenced_vars(acc);
                let mut inner = NameSet::new();
                if let Some(f) = filter {
                    f.referenced_vars(&mut inner);
                }
                body.referenced_vars(&mut inner);
                inner.remove(var.as_str());
                acc.extend(&inner);
                proof {
                    match filter {
                        Some(f) => {
                            assert(inner@ =~= f.vars().union(body.vars()).remove(var@));
                        },
                        None => {
                            assert(inner@ =~= body.vars().remove(var@));
                        },
                    }
                    assert(acc@ =~= old(acc)@.union(self.vars()));
                }
            },
            _ => {
                assert(acc@ =~= old(acc)@.union(self.vars()));
            },
        }
    }

    /// Whether a value conforms to a type.
    pub fn value_is_type(val: &Value, ty: &SimpleType) -> (r: bool)
        ensures
            r == conforms(val@, ty@),
        decreases ty,
    {
        match (val, ty) {
            (Value::Str(_), SimpleType::S) => true,
            (Value::Int(_), SimpleType::Z) => true,
            (Value::Float(_), SimpleType::F) => true,
            (Value::Bool(_), SimpleType::B) => true,
            (Value::List(items), SimpleType::List(elem)) => {
                let mut i: usize = 0;
                while i < items.len()
                    invariant
                        i <= items.len(),
                        *val == Value::List(*items),
                        *ty == SimpleType::List(*elem),
                        forall|j: int| 0 <= j < i ==> conforms((#[trigger] items@[j])@, elem@),
                    decreases items.len() - i,
                {
                    assert(decreases_to!(ty => ty->List_0));
                    if !Expr::value_is_type(&items[i], elem) {
                        assert(val@->List_0[i as int] == items@[i as int]@);
                        return false;
                    }
                    i = i + 1;
                }
                assert forall|j: int| 0 <= j < val@->List_0.len() implies conforms(
                    #[trigger] val@->List_0[j],
                    elem@,
                ) by {
                    assert(conforms(items@[j]@, elem@));
                }
                true
            },
            (Value::Record(v), SimpleType::Record(t)) => {
                proof {
                    assert(val@->Record_0.dom() =~= v@.dom());
                    assert(ty@->Record_0.dom() =~= t@.dom());
                }
                if !same_keys(v, t) {
                    return false;
                }
                let n = t.len();
                let mut i: usize = 0;
                while i < n
                    invariant
                        i <= n,
                        n == t.keys().len(),
                        *val == Value::Record(*v),
                        *ty == SimpleType::Record(*t),
                        v@.dom() == t@.dom(),
                        ty@->Record_0.dom() == t@.dom(),
                        t.keys().to_set() == t@.dom(),
                        forall|j: int|
                            0 <= j < i ==> conforms(
                                v@[#[trigger] t.keys()[j]]@,
                                t@[t.keys()[j]]@,
                            ),
                    decreases n - i,
                {
                    proof {
                        t.values_decrease();
                        assert(decreases_to!(ty => ty->Record_0));
                    }
                    let ft = t.value_at(i);
                    match v.get(t.key_at(i).as_str()) {
                        Some(fv) => {
                            if !Expr::value_is_type(fv, ft) {
                                assert(ty@->Record_0.contains_key(t.keys()[i as int]));
                                return false;
                            }
                        },
                        None => {
                            return false;
                        },
                    }
                    i = i + 1;
                }
                assert forall|k: Seq<char>| #[trigger]
                    ty@->Record_0.contains_key(k) implies conforms(
                    val@->Record_0[k],
                    ty@->Record_0[k],
                ) by {
                    assert(t.keys().to_set().contains(k));
                }
                true
            },
            (Value::Node(_), SimpleType::Node) => true,
            (Value::Edge(_), SimpleType::Edge) => true,
            (Value::Path(_), SimpleType::Path) => true,
            (_, SimpleType::Star) => true,
            (_, SimpleType::Union(a, b)) => Expr::value_is_type(val, a) || Expr::value_is_type(
                val,
                b,
            ),
            _ => false,
        }
    }

    fn plain_same_all(a: &Vec<Expr>, b: &Vec<Expr>) -> (r: bool)
        ensures
            r == (a@.len() == b@.len() && forall|i: int|
                0 <= i < a@.len() ==> (#[trigger] a@[i]).plain_equal(b@[i])),
        decreases a,
    {
        if a.len() != b.len() {
            return false;
        }
        let mut i: usize = 0;
        while i < a.len()
            invariant
                i <= a.len(),
                a.len() == b.len(),
                forall|j: int| 0 <= j < i ==> (#[trigger] a@[j]).plain_equal(b@[j]),
            decreases a.len() - i,
        {
            if !a[i].plain_same(&b[i]) {
                assert(!a@[i as int].plain_equal(b@[i as int]));
                return false;
            }
            i = i + 1;
        }
        true
    }

    fn plain_same_opt(a: &Option<Box<Expr>>, b: &Option<Box<Expr>>) -> (r: bool)
        ensures
            r == (match (a, b) {
                (Some(x), Some(y)) => x.plain_equal(**y),
                (None, None) => true,
                _ => false,
            }),
        decreases a,
    {
        match (a, b) {
            (Some(x), Some(y)) => x.plain_same(y),
            (None, None) => true,
            _ => false,
        }
    }

    /// Equality of expressions without subqueries and aggregates; one that
    /// has any equals nothing.
    pub fn plain_same(&self, other: &Expr) -> (r: bool)
        ensures
            r == self.plain_equal(*other),
        decreases self,
    {
        match (self, other) {
            (Expr::Const(a), Expr::Const(b)) => a.equals(b),
            (Expr::Var(a), Expr::Var(b)) => same_text(a.as_str(), b.as_str()),
            (
                Expr::AttrLookup { var: v1, attr: a1 },
                Expr::AttrLookup { var: v2, attr: a2 },
            ) => same_text(v1.as_str(), v2.as_str()) && same_text(a1.as_str(), a2.as_str()),
            (
                Expr::FieldAccess { base: b1, field: f1 },
                Expr::FieldAccess { base: b2, field: f2 },
            ) => b1.plain_same(b2) && same_text(f1.as_str(), f2.as_str()),
            (
                Expr::Binop { op: o1, left: l1, right: r1 },
                Expr::Binop { op: o2, left: l2, right: r2 },
            ) => *o1 == *o2 && l1.plain_same(l2) && r1.plain_same(r2),
            (Expr::Unop { op: o1, operand: e1 }, Expr::Unop { op: o2, operand: e2 }) => *o1
                == *o2 && e1.plain_same(e2),
            (
                Expr::IsNull { operand: e1, negated: n1 },
                Expr::IsNull { operand: e2, negated: n2 },
            ) => *n1 == *n2 && e1.plain_same(e2),
            (Expr::Coalesce(a), Expr::Coalesce(b)) => Expr::plain_same_all(a, b),
            (Expr::Call { name: n1, args: a }, Expr::Call { name: n2, args: b }) => same_text(
                n1.as_str(),
                n2.as_str(),
            ) && Expr::plain_same_all(a, b),
            (Expr::Record { fields: a }, Expr::Record { fields: b }) => {
                if a.len() != b.len() {
                    return false;
                }
                let mut i: usize = 0;
                while i < a.len()
                    invariant
                        i <= a.len(),
                        a.len() == b.len(),
                        self matches Expr::Record { fields: f2 } && f2 == a,
                        other matches Expr::Record { fields: f2 } && f2 == b,
                        forall|j: int|
                            0 <= j < i ==> (#[trigger] a@[j]).0@ == b@[j].0@
                                && a@[j].1.plain_equal(b@[j].1),
                    decreases a.len() - i,
                {
                    assert(decreases_to!(self => self->fields));
                    assert(decreases_to!(a@[i as int] => a@[i as int].1));
                    if !same_text(a[i].0.as_str(), b[i].0.as_str()) || !a[i].1.plain_same(&b[i].1) {
                        assert(!(a@[i as int].0@ == b@[i as int].0@
                            && a@[i as int].1.plain_equal(b@[i as int].1)));
                        return false;
                    }
                    i = i + 1;
                }
                true
            },
            (
                Expr::Case { branches: a, else_expr: e1 },
                Expr::Case { branches: b, else_expr: e2 },
            ) => {
                if a.len() != b.len() {
                    return false;
                }
                let mut i: usize = 0;
                while i < a.len()
                    invariant
                        i <= a.len(),
                        a.len() == b.len(),
                        self matches Expr::Case { branches: f2, .. } && f2 == a,
                        other matches Expr::Case { branches: f2, .. } && f2 == b,
                        forall|j: int|
                            0 <= j < i ==> (#[trigger] a@[j]).0.plain_equal(b@[j].0)
                                && a@[j].1.plain_equal(b@[j].1),
                    decreases a.len() - i,
                {
                    assert(decreases_to!(self => self->Case_branches));
                    assert(decreases_to!(a@[i as int] => a@[i as int].0));
                    assert(decreases_to!(a@[i as int] => a@[i as int].1));
                    if !a[i].0.plain_same(&b[i].0) || !a[i].1.plain_same(&b[i].1) {
                        assert(!(a@[i as int].0.plain_equal(b@[i as int].0)
                            && a@[i as int].1.plain_equal(b@[i as int].1)));
                        return false;
                    }
                    i = i + 1;
                }
                Expr::plain_same_opt(e1, e2)
            },
            (
                Expr::ListComprehension { var: v1, source: s1, filter: f1, body: b1 },
                Expr::ListComprehension { var: v2, source: s2, filter: f2, body: b2 },
            ) => same_text(v1.as_str(), v2.as_str()) && s1.plain_same(s2)
                && Expr::plain_same_opt(f1, f2) && b1.plain_same(b2),
            (Expr::Type(a), Expr::Type(b)) => a.same(b),
            _ => false,
        }
    }
}

/// The MATCH clauses of a subquery; the first needs no keyword.
pub open spec fn subquery_text(
    ms: Seq<MatchStatement>,
    shown: spec_fn(u64) -> Seq<char>,
) -> Seq<char>
    decreases ms,
{
    if ms.len() == 0 {
        Seq::empty()
    } else {
        let before = subquery_text(ms.drop_last(), shown);
        let gap = if ms.len() > 1 {
            before + " "@
        } else {
            before
        };
        match ms.last() {
            MatchStatement::Simple { pattern } => if ms.len() > 1 {
                gap + "MATCH "@ + pattern.text(shown)
            } else {
                gap + pattern.text(shown)
            },
            MatchStatement::Optional { pattern } => gap + "OPTIONAL MATCH "@ + pattern.text(shown),
        }
    }
}

impl Expr {
    /// The printed form of each expression.
    pub open spec fn texts(args: Seq<Expr>, shown: spec_fn(u64) -> Seq<char>) -> Seq<Seq<char>>
        decreases args,
    {
        Seq::new(
            args.len(),
            |i: int|
                if 0 <= i < args.len() {
                    args[i].text(shown)
                } else {
                    arbitrary()
                },
        )
    }

    /// The printed form of each field of a record.
    pub open spec fn field_texts(
        fields: Seq<(String, Expr)>,
        shown: spec_fn(u64) -> Seq<char>,
    ) -> Seq<Seq<char>>
        decreases fields,
    {
        Seq::new(
            fields.len(),
            |i: int|
                if 0 <= i < fields.len() {
                    fields[i].0@ + ": "@ + fields[i].1.text(shown)
                } else {
                    arbitrary()
                },
        )
    }

    /// A CASE up to its last branch.
    pub open spec fn case_text(
        branches: Seq<(Expr, Expr)>,
        shown: spec_fn(u64) -> Seq<char>,
    ) -> Seq<char>
        decreases branches,
    {
        if branches.len() == 0 {
            "CASE"@
        } else {
            Expr::case_text(branches.drop_last(), shown) + " WHEN "@ + branches.last().0.text(shown)
                + " THEN "@ + branches.last().1.text(shown)
        }
    }

    /// The printed form, with floating-point numbers as they are shown.
    pub open spec fn text(self, shown: spec_fn(u64) -> Seq<char>) -> Seq<char>
        decreases self,
    {
        match self {
            Expr::Const(v) => v@.text(shown),
            Expr::Var(name) => name@,
            Expr::AttrLookup { var, attr } => var@ + "."@ + attr@,
            Expr::FieldAccess { base, field } => base.text(shown) + "."@ + field@,
            Expr::Binop { op, left, right } => if op == BinOp::Mod {
                "MOD("@ + left.text(shown) + ", "@ + right.text(shown) + ")"@
            } else {
                "("@ + left.text(shown) + " "@ + op.text() + " "@ + right.text(shown) + ")"@
            },
            Expr::Unop { op, operand } => op.text() + " "@ + operand.text(shown),
            Expr::IsNull { operand, negated } => if negated {
                "("@ + operand.text(shown) + " IS NOT NULL)"@
            } else {
                "("@ + operand.text(shown) + " IS NULL)"@
            },
            Expr::Coalesce(args) => "COALESCE("@ + crate::text::joined(
                Expr::texts(args@, shown),
                ", "@,
            ) + ")"@,
            Expr::Call { name, args } => if name@ == "CAST"@ && args@.len() == 2 {
                "CAST("@ + args@[0].text(shown) + " AS "@ + args@[1].text(shown) + ")"@
            } else {
                name@ + "("@ + crate::text::joined(Expr::texts(args@, shown), ", "@) + ")"@
            },
            Expr::Record { fields } => "RECORD { "@ + crate::text::joined(
                Expr::field_texts(fields@, shown),
                ", "@,
            ) + " }"@,
            Expr::ValueSubquery { body } => "VALUE { "@ + subquery_text(body.matches@, shown)
                + " }"@,
            Expr::Case { branches, else_expr } => match else_expr {
                Some(e) => Expr::case_text(branches@, shown) + " ELSE "@ + e.text(shown) + " END"@,
                None => Expr::case_text(branches@, shown) + " END"@,
            },
            Expr::ListComprehension { var, source, filter, body } => match filter {
                Some(f) => "["@ + var@ + " IN "@ + source.text(shown) + " WHERE "@ + f.text(shown)
                    + " | "@ + body.text(shown) + "]"@,
                None => "["@ + var@ + " IN "@ + source.text(shown) + " | "@ + body.text(shown)
                    + "]"@,
            },
            Expr::Type(t) => t@.text(),
            Expr::Exists { body } => "EXISTS { "@ + subquery_text(body.matches@, shown) + " }"@,
            Expr::NotExists { body } => "NOT EXISTS { "@ + subquery_text(body.matches@, shown)
                + " }"@,
            Expr::Agg(agg) => agg.text(shown),
        }
    }

    /// The printed form of each expression.
    pub fn to_strings<F: Fn(u64) -> String>(args: &Vec<Expr>, show: &F) -> (r: Vec<String>)
        requires
            crate::model::float_text::prints_floats(*show),
        ensures
            crate::text::texts(r@) == Expr::texts(
                args@,
                crate::model::float_text::float_texts(*show),
            ),
        decreases args,
    {
        let mut parts: Vec<String> = Vec::new();
        let mut i: usize = 0;
        while i < args.len()
            invariant
                i <= args.len(),
                crate::model::float_text::prints_floats(*show),
                parts@.len() == i,
                forall|j: int| 0 <= j < i ==> (#[trigger] parts@[j])@ == args@[j].text(
                    crate::model::float_text::float_texts(*show),
                ),
            decreases args.len() - i,
        {
            parts.push(args[i].to_string(show));
            i = i + 1;
        }
        assert(crate::text::texts(parts@) =~= Expr::texts(
            args@,
            crate::model::float_text::float_texts(*show),
        ));
        parts
    }

    /// The printed form, with floating-point numbers as a function prints them.
    pub fn to_string<F: Fn(u64) -> String>(&self, show: &F) -> (r: String)
        requires
            crate::model::float_text::prints_floats(*show),
        ensures
            r@ == self.text(crate::model::float_text::float_texts(*show)),
        decreases self,
    {
        match self {
            Expr::Const(v) => v.to_string(show),
            Expr::Var(name) => name.clone(),
            Expr::AttrLookup { var, attr } => {
                let mut s = var.clone();
                s.append(".");
                s.append(attr.as_str());
                s
            },
            Expr::FieldAccess { base, field } => {
                let mut s = base.to_string(show);
                s.append(".");
                s.append(field.as_str());
                s
            },
            Expr::Binop { op, left, right } => {
                if *op == BinOp::Mod {
                    let mut s = copy_text("MOD(");
                    s.append(left.to_string(show).as_str());
                    s.append(", ");
                    s.append(right.to_string(show).as_str());
                    s.append(")");
                    s
                } else {
                    let mut s = copy_text("(");
                    s.append(left.to_string(show).as_str());
                    s.append(" ");
                    s.append(op.to_string().as_str());
                    s.append(" ");
                    s.append(right.to_string(show).as_str());
                    s.append(")");
                    s
                }
            },
            Expr::Unop { op, operand } => {
                let mut s = op.to_string();
                s.append(" ");
                s.append(operand.to_string(show).as_str());
                s
            },
            Expr::IsNull { operand, negated } => {
                let mut s = copy_text("(");
                s.append(operand.to_string(show).as_str());
                if *negated {
                    s.append(" IS NOT NULL)");
                } else {
                    s.append(" IS NULL)");
                }
                s
            },
            Expr::Coalesce(args) => {
                let parts = Expr::to_strings(args, show);
                let mut s = copy_text("COALESCE(");
                s.append(join_texts(&parts, ", ").as_str());
                s.append(")");
                s
            },
            Expr::Call { name, args } => {
                if same_text(name.as_str(), "CAST") && args.len() == 2 {
                    assert(decreases_to!(args => args@[0]));
                    assert(decreases_to!(args => args@[1]));
                    let mut s = copy_text("CAST(");
                    s.append(args[0].to_string(show).as_str());
                    s.append(" AS ");
                    s.append(args[1].to_string(show).as_str());
                    s.append(")");
                    s
                } else {
                    let parts = Expr::to_strings(args, show);
                    let mut s = name.clone();
                    s.append("(");
                    s.append(join_texts(&parts, ", ").as_str());
                    s.append(")");
                    s
                }
            },
            Expr::Record { fields } => {
                let mut parts: Vec<String> = Vec::new();
                let mut i: usize = 0;
                while i < fields.len()
                    invariant
                        i <= fields.len(),
                        crate::model::float_text::prints_floats(*show),
                        self matches Expr::Record { fields: f2 } && f2 == fields,
                        parts@.len() == i,
                        forall|j: int|
                            0 <= j < i ==> (#[trigger] parts@[j])@ == fields@[j].0@ + ": "@
                                + fields@[j].1.text(crate::model::float_text::float_texts(*show)),
                    decreases fields.len() - i,
                {
                    assert(decreases_to!(self => self->fields));
                    assert(decreases_to!(fields@[i as int] => fields@[i as int].1));
                    let mut p = fields[i].0.clone();
                    p.append(": ");
                    p.append(fields[i].1.to_string(show).as_str());
                    parts.push(p);
                    i = i + 1;
                }
                assert(crate::text::texts(parts@) =~= Expr::field_texts(
                    fields@,
                    crate::model::float_text::float_texts(*show),
                ));
                let mut s = copy_text("RECORD { ");
                s.append(join_texts(&parts, ", ").as_str());
                s.append(" }");
                s
            },
            Expr::ValueSubquery { body } => {
                let mut s = copy_text("VALUE { ");
                s.append(display_subquery(&body.matches, show).as_str());
                s.append(" }");
                s
            },
            Expr::Case { branches, else_expr } => {
                let mut s = copy_text("CASE");
                let mut i: usize = 0;
                while i < branches.len()
                    invariant
                        i <= branches.len(),
                        crate::model::float_text::prints_floats(*show),
                        self matches Expr::Case { branches: b2, .. } && b2 == branches,
                        s@ == Expr::case_text(
                            branches@.take(i as int),
                            crate::model::float_text::float_texts(*show),
                        ),
                    decreases branches.len() - i,
                {
                    assert(decreases_to!(self => self->Case_branches));
                    assert(decreases_to!(branches@[i as int] => branches@[i as int].0));
                    assert(decreases_to!(branches@[i as int] => branches@[i as int].1));
                    s.append(" WHEN ");
                    s.append(branches[i].0.to_string(show).as_str());
                    s.append(" THEN ");
                    s.append(branches[i].1.to_string(show).as_str());
                    assert(branches@.take(i + 1).drop_last() =~= branches@.take(i as int));
                    i = i + 1;
                }
                assert(branches@.take(i as int) =~= branches@);
                if let Some(e) = else_expr {
                    s.append(" ELSE ");
                    s.append(e.to_string(show).as_str());
                }
                s.append(" END");
                s
            },
            Expr::ListComprehension { var, source, filter, body } => {
                let mut s = copy_text("[");
                s.append(var.as_str());
                s.append(" IN ");
                s.append(source.to_string(show).as_str());
                if let Some(f) = filter {
                    s.append(" WHERE ");
                    s.append(f.to_string(show).as_str());
                }
                s.append(" | ");
                s.append(body.to_string(show).as_str());
                s.append("]");
                s
            },
            Expr::Type(t) => t.to_string(),
            Expr::Exists { body } => {
                let mut s = copy_text("EXISTS { ");
                s.append(display_subquery(&body.matches, show).as_str());
                s.append(" }");
                s
            },
            Expr::NotExists { body } => {
                let mut s = copy_text("NOT EXISTS { ");
                s.append(display_subquery(&body.matches, show).as_str());
                s.append(" }");
                s
            },
            Expr::Agg(agg) => agg.to_string(show),
        }
    }
}

/// The MATCH clauses of a subquery.
fn display_subquery<F: Fn(u64) -> String>(matches: &Vec<MatchStatement>, show: &F) -> (r: String)
    requires
        crate::model::float_text::prints_floats(*show),
    ensures
        r@ == subquery_text(matches@, crate::model::float_text::float_texts(*show)),
    decreases matches,
{
    let mut out = String::new();
    let mut i: usize = 0;
    while i < matches.len()
        invariant
            i <= matches.len(),
            crate::model::float_text::prints_floats(*show),
            out@ == subquery_text(
                matches@.take(i as int),
                crate::model::float_text::float_texts(*show),
            ),
        decreases matches.len() - i,
    {
        assert(matches@.take(i + 1).drop_last() =~= matches@.take(i as int));
        if i > 0 {
            out.append(" ");
        }
        match &matches[i] {
            MatchStatement::Simple { pattern } => {
                if i > 0 {
                    out.append("MATCH ");
                }
                out.append(pattern.to_string(show).as_str());
            },
            MatchStatement::Optional { pattern } => {
                out.append("OPTIONAL MATCH ");
                out.append(pattern.to_string(show).as_str());
            },
        }
        i = i + 1;
    }
    assert(matches@.take(i as int) =~= matches@);
    out
}

} // verus!
