//! What types say of values. A type is held to the values that belong to it, as
//! the test of a value against a type tells.

use vstd::prelude::*;

use super::judgment::{Notes, Scope};
use super::simple_type::SimpleTypeView;
use super::type_environment::Env;
use crate::model::value::ValueView;
use crate::syntax::expr::{BinOp, Expr, UnOp};
use crate::syntax::path_pattern::PathPattern;

verus! {

/// A value belongs to the type.
pub open spec fn belongs(v: ValueView, t: SimpleTypeView) -> bool {
    crate::syntax::expr::conforms(v, t)
}

/// A truth value belongs to the type.
pub open spec fn can_be_bool(t: SimpleTypeView) -> bool {
    belongs(ValueView::Bool(true), t) || belongs(ValueView::Bool(false), t)
}

/// A number belongs to the type.
pub open spec fn can_be_number(t: SimpleTypeView) -> bool {
    belongs(ValueView::Int(0), t) || belongs(ValueView::Float(0), t)
}

/// A text, a truth value or a number.
pub open spec fn is_scalar(v: ValueView) -> bool {
    v is Int || v is Float || v is Bool || v is Str
}

/// Both are texts, both truth values, both integers or both floating-point
/// numbers.
pub open spec fn same_kind(a: ValueView, b: ValueView) -> bool {
    ||| a is Int && b is Int
    ||| a is Float && b is Float
    ||| a is Bool && b is Bool
    ||| a is Str && b is Str
}

/// A value belongs to the union of two types exactly where it belongs to one.
pub proof fn union_holds_both(v: ValueView, a: SimpleTypeView, b: SimpleTypeView)
    ensures
        belongs(v, a.union(b)) <==> belongs(v, a) || belongs(v, b),
{
}

/// A value belongs to what two types share exactly where it belongs to both.
pub proof fn meet_holds_shared(v: ValueView, a: SimpleTypeView, b: SimpleTypeView)
    ensures
        belongs(v, a.meet(b)) <==> belongs(v, a) && belongs(v, b),
    decreases a, b,
{
    match (a, b) {
        (SimpleTypeView::Star, _) => {},
        (_, SimpleTypeView::Star) => {},
        (SimpleTypeView::Union(x, y), _) => {
            meet_holds_shared(v, *x, b);
            meet_holds_shared(v, *y, b);
            union_holds_both(v, x.meet(b), y.meet(b));
        },
        (_, SimpleTypeView::Union(x, y)) => {
            meet_holds_shared(v, a, *x);
            meet_holds_shared(v, a, *y);
            union_holds_both(v, a.meet(*x), a.meet(*y));
        },
        (SimpleTypeView::List(x), SimpleTypeView::List(y)) => {
            if v is List {
                let items = v->List_0;
                assert forall|i: int| 0 <= i < items.len() implies (belongs(
                    #[trigger] items[i],
                    x.meet(*y),
                ) <==> belongs(items[i], *x) && belongs(items[i], *y)) by {
                    meet_holds_shared(items[i], *x, *y);
                }
                if belongs(v, a.meet(b)) {
                    assert forall|i: int| 0 <= i < items.len() implies belongs(
                        #[trigger] items[i],
                        *x,
                    ) && belongs(items[i], *y) by {
                        assert(belongs(items[i], x.meet(*y)));
                    }
                }
                if belongs(v, a) && belongs(v, b) {
                    assert forall|i: int| 0 <= i < items.len() implies belongs(
                        #[trigger] items[i],
                        x.meet(*y),
                    ) by {
                        assert(belongs(items[i], *x) && belongs(items[i], *y));
                    }
                }
            }
        },
        (SimpleTypeView::Record(x), SimpleTypeView::Record(y)) => {
            if v is Record && x.dom() == y.dom() {
                let fields = v->Record_0;
                let both = a.meet(b)->Record_0;
                assert(both.dom() =~= x.dom());
                assert forall|k: Seq<char>| #[trigger] x.contains_key(k) implies (belongs(
                    fields[k],
                    both[k],
                ) <==> belongs(fields[k], x[k]) && belongs(fields[k], y[k])) by {
                    assert(both[k] == x[k].meet(y[k]));
                    meet_holds_shared(fields[k], x[k], y[k]);
                }
                if belongs(v, a.meet(b)) {
                    assert forall|k: Seq<char>| #[trigger] x.contains_key(k) implies belongs(
                        fields[k],
                        x[k],
                    ) && belongs(fields[k], y[k]) by {
                        assert(both.contains_key(k));
                    }
                    assert forall|k: Seq<char>| #[trigger] y.contains_key(k) implies belongs(
                        fields[k],
                        y[k],
                    ) by {
                        assert(x.contains_key(k));
                    }
                }
                if belongs(v, a) && belongs(v, b) {
                    assert forall|k: Seq<char>| #[trigger] both.contains_key(k) implies belongs(
                        fields[k],
                        both[k],
                    ) by {
                        assert(x.contains_key(k) && y.contains_key(k));
                    }
                }
            }
        },
        _ => {},
    }
}

/// What a scalar belongs to does not depend on which scalar of its kind it is,
/// and such a type has values.
pub proof fn kinds_belong_alike(v: ValueView, w: ValueView, t: SimpleTypeView)
    requires
        same_kind(v, w),
    ensures
        belongs(v, t) == belongs(w, t),
        belongs(v, t) ==> !t.is_empty(),
    decreases t,
{
    match t {
        SimpleTypeView::Union(a, b) => {
            kinds_belong_alike(v, w, *a);
            kinds_belong_alike(v, w, *b);
        },
        _ => {},
    }
}

/// What a type shares with one kind of scalars is empty exactly where none of
/// them belongs to it.
proof fn shares_kind(v: ValueView, kind: SimpleTypeView, t: SimpleTypeView)
    requires
        (v is Int && kind is Z) || (v is Float && kind is F) || (v is Bool && kind is B) || (
        v is Str && kind is S),
    ensures
        t.meet(kind).is_empty() <==> !belongs(v, t),
        t.meet(kind) is Zero <==> !belongs(v, t),
    decreases t,
{
    match t {
        SimpleTypeView::Union(a, b) => {
            shares_kind(v, kind, *a);
            shares_kind(v, kind, *b);
        },
        _ => {},
    }
}

proof fn shares_number(t: SimpleTypeView)
    ensures
        t.meet(crate::syntax::expr::number_type()) is Zero <==> !can_be_number(t),
    decreases t,
{
    shares_kind(ValueView::Int(0), SimpleTypeView::Z, t);
    shares_kind(ValueView::Float(0), SimpleTypeView::F, t);
    match t {
        SimpleTypeView::Union(a, b) => {
            shares_number(*a);
            shares_number(*b);
        },
        _ => {},
    }
}

/// A filter keeps the pattern, its bindings and what was said of both where a
/// truth value belongs to the type of its predicate. Where none does the pattern
/// has no match, and one warning says so.
pub proof fn filter_asks_for_truth(s: Scope, p: PathPattern, e: Expr, n: Notes)
    ensures
        ({
            let (r, n1) = super::judgment::judge_pattern(s, p, n);
            let (t, n2) = super::judgment::judge_expr(s, e, s.filter_env(r.env), n1);
            let (f, m) = super::judgment::judge_pattern(
                s,
                PathPattern::Filter(Box::new(p), e),
                n,
            );
            &&& can_be_bool(t) ==> f == r && m == n2
            &&& !can_be_bool(t) ==> f.path.is_unsatisfiable() && f.env == r.env && m.errors
                == n2.errors && m.warnings.len() == n2.warnings.len() + 1
                && m.warnings.drop_last() == n2.warnings
            &&& t is B || t is Star ==> f == r && m == n2
            &&& t is Z || t is F || t is S || t is List || t is Record || t is Node || t is Edge
                || t is Path || t is Zero ==> f.path.is_unsatisfiable() && m.errors == n2.errors
                && m.warnings.len() == n2.warnings.len() + 1 && m.warnings.drop_last()
                == n2.warnings
        }),
{
    let (r, n1) = super::judgment::judge_pattern(s, p, n);
    let (t, n2) = super::judgment::judge_expr(s, e, s.filter_env(r.env), n1);
    let (f, m) = super::judgment::judge_pattern(s, PathPattern::Filter(Box::new(p), e), n);
    shares_kind(ValueView::Bool(true), SimpleTypeView::B, t);
    kinds_belong_alike(ValueView::Bool(true), ValueView::Bool(false), t);
    if !can_be_bool(t) {
        assert(m.warnings.drop_last() =~= n2.warnings);
    }
}

/// The operators on numbers that give a number.
pub open spec fn is_arithmetic(op: BinOp) -> bool {
    op == BinOp::Add || op == BinOp::Sub || op == BinOp::Mul || op == BinOp::Div
}

/// The operators that ask which of two numbers is larger.
pub open spec fn is_comparison(op: BinOp) -> bool {
    op == BinOp::Lt || op == BinOp::Gt || op == BinOp::Le || op == BinOp::Ge
}

/// Exactly the truth values belong to the type.
pub open spec fn is_truth(t: SimpleTypeView) -> bool {
    forall|v: ValueView| #[trigger] belongs(v, t) <==> v is Bool
}

/// Exactly the numbers belong to the type.
pub open spec fn is_number(t: SimpleTypeView) -> bool {
    forall|v: ValueView| #[trigger] belongs(v, t) <==> v is Int || v is Float
}

/// Exactly the integers belong to the type.
pub open spec fn is_whole(t: SimpleTypeView) -> bool {
    forall|v: ValueView| #[trigger] belongs(v, t) <==> v is Int
}

/// Nothing is said.
pub open spec fn silent(a: Notes, b: Notes) -> bool {
    a == b
}

/// One warning is said, and no more.
pub open spec fn warned_once(a: Notes, b: Notes) -> bool {
    &&& b.errors == a.errors
    &&& b.warnings.len() == a.warnings.len() + 1
    &&& b.warnings.drop_last() == a.warnings
}

proof fn one_warning(n: Notes, text: Seq<char>)
    ensures
        warned_once(n, n.warn(text)),
{
    assert(n.warn(text).warnings.drop_last() =~= n.warnings);
}

proof fn numbers_are_numbers()
    ensures
        is_number(crate::syntax::expr::number_type()),
{
    reveal_with_fuel(crate::syntax::expr::conforms, 2);
}

/// What an operator makes of its operands. Arithmetic and comparisons want two
/// operands that can be numbers, a remainder two that can be integers, AND and OR
/// two that can be truth values. Then nothing is said: arithmetic gives a number,
/// a remainder an integer, the others a truth value. Otherwise there is one
/// warning, and no value.
pub proof fn operators_fit_their_operands(
    s: Scope,
    op: BinOp,
    left: Expr,
    right: Expr,
    env: Env,
    n: Notes,
)
    requires
        op != BinOp::Is && op != BinOp::As,
    ensures
        ({
            let (t1, n1) = super::judgment::judge_expr(s, left, env, n);
            let (t2, n2) = super::judgment::judge_expr(s, right, env, n1);
            let (t, m) = super::judgment::judge_expr(
                s,
                Expr::Binop { op, left: Box::new(left), right: Box::new(right) },
                env,
                n,
            );
            let numbers = can_be_number(t1) && can_be_number(t2);
            let wholes = belongs(ValueView::Int(0), t1) && belongs(ValueView::Int(0), t2);
            let truths = can_be_bool(t1) && can_be_bool(t2);
            &&& is_arithmetic(op) && numbers ==> silent(n2, m) && is_number(t)
            &&& is_arithmetic(op) && !numbers ==> warned_once(n2, m) && t is Zero
            &&& is_comparison(op) && numbers ==> silent(n2, m) && is_truth(t)
            &&& is_comparison(op) && !numbers ==> warned_once(n2, m) && t is Zero
            &&& op == BinOp::Mod && wholes ==> silent(n2, m) && is_whole(t)
            &&& op == BinOp::Mod && !wholes ==> warned_once(n2, m) && t is Zero
            &&& (op == BinOp::And || op == BinOp::Or) && truths ==> silent(n2, m) && is_truth(t)
            &&& (op == BinOp::And || op == BinOp::Or) && !truths ==> warned_once(n2, m)
                && t is Zero
            &&& (op == BinOp::Eq || op == BinOp::Ne) && (exists|v: ValueView| #[trigger]
                belongs(v, t1) && belongs(v, t2)) ==> silent(n2, m) && is_truth(t)
            &&& (op == BinOp::Eq || op == BinOp::Ne) && t1.meet(t2) is Zero ==> warned_once(
                n2,
                m,
            ) && t is Zero
            &&& op == BinOp::In && belongs(ValueView::List(Seq::empty()), t2) && !(t1 is Zero)
                ==> silent(n2, m) && is_truth(t)
        }),
{
    let (t1, n1) = super::judgment::judge_expr(s, left, env, n);
    let (t2, n2) = super::judgment::judge_expr(s, right, env, n1);
    let (e1, e2, r) = op.signature(t1, t2);
    let e = Expr::Binop { op, left: Box::new(left), right: Box::new(right) };
    assert(super::judgment::judge_expr(s, e, env, n) == super::judgment::binop_type(
        op,
        t1,
        t2,
        n2,
    ));
    one_warning(
        n2,
        "Binop "@ + op.name() + " between types "@ + t1.text() + " and "@ + t2.text()
            + " is not defined"@,
    );
    shares_number(t1);
    shares_number(t2);
    shares_kind(ValueView::Int(0), SimpleTypeView::Z, t1);
    shares_kind(ValueView::Int(0), SimpleTypeView::Z, t2);
    shares_kind(ValueView::Bool(true), SimpleTypeView::B, t1);
    shares_kind(ValueView::Bool(true), SimpleTypeView::B, t2);
    kinds_belong_alike(ValueView::Bool(true), ValueView::Bool(false), t1);
    kinds_belong_alike(ValueView::Bool(true), ValueView::Bool(false), t2);
    if op == BinOp::Eq || op == BinOp::Ne {
        if exists|v: ValueView| #[trigger] belongs(v, t1) && belongs(v, t2) {
            let v = choose|v: ValueView| #[trigger] belongs(v, t1) && belongs(v, t2);
            meet_holds_shared(v, t1, t2);
            meet_holds_shared(v, t1, t1.meet(t2));
            meet_holds_shared(v, t2, t1.meet(t2));
        }
        if t1.meet(t2) is Zero {
            nothing_shared(t1);
        }
    }
    if op == BinOp::In {
        let v = ValueView::List(Seq::<ValueView>::empty());
        assert(belongs(v, e2));
        meet_holds_shared(v, t2, e2);
    }
    assert(is_truth(SimpleTypeView::B));
    numbers_are_numbers();
    assert(is_whole(SimpleTypeView::Z));
}

proof fn nothing_shared(t: SimpleTypeView)
    ensures
        t.meet(SimpleTypeView::Zero) is Zero,
    decreases t,
{
    match t {
        SimpleTypeView::Union(a, b) => {
            nothing_shared(*a);
            nothing_shared(*b);
        },
        _ => {},
    }
}

/// A sign wants an operand that can be a number and gives a number, NOT one that
/// can be a truth value and gives a truth value. A test for null, a test of a type
/// and a test for matches give a truth value whatever they are asked of.
pub proof fn tests_give_truth(s: Scope, op: UnOp, operand: Expr, env: Env, n: Notes)
    ensures
        ({
            let (t1, n1) = super::judgment::judge_expr(s, operand, env, n);
            let (t, m) = super::judgment::judge_expr(
                s,
                Expr::Unop { op, operand: Box::new(operand) },
                env,
                n,
            );
            &&& op == UnOp::Neg && can_be_number(t1) ==> silent(n1, m) && is_number(t)
            &&& op == UnOp::Neg && !can_be_number(t1) ==> warned_once(n1, m) && t is Zero
            &&& op == UnOp::Not && can_be_bool(t1) ==> silent(n1, m) && is_truth(t)
            &&& op == UnOp::Not && !can_be_bool(t1) ==> warned_once(n1, m) && t is Zero
        }),
        forall|negated: bool|
            {
                let (t, m) = #[trigger] super::judgment::judge_expr(
                    s,
                    Expr::IsNull { operand: Box::new(operand), negated },
                    env,
                    n,
                );
                is_truth(t) && m == super::judgment::judge_expr(s, operand, env, n).1
            },
        forall|ty: crate::typing::simple_type::SimpleType|
            {
                let (t, m) = #[trigger] super::judgment::judge_expr(
                    s,
                    Expr::Binop {
                        op: BinOp::Is,
                        left: Box::new(operand),
                        right: Box::new(Expr::Type(ty)),
                    },
                    env,
                    n,
                );
                is_truth(t) && m == super::judgment::judge_expr(s, operand, env, n).1
            },
{
    let (t1, n1) = super::judgment::judge_expr(s, operand, env, n);
    shares_number(t1);
    shares_kind(ValueView::Bool(true), SimpleTypeView::B, t1);
    kinds_belong_alike(ValueView::Bool(true), ValueView::Bool(false), t1);
    one_warning(n1, "Unop "@ + op.name() + " on type "@ + t1.text() + " is not defined"@);
    assert(is_truth(SimpleTypeView::B));
    numbers_are_numbers();
}

/// A literal belongs to its type, and of a scalar's type only scalars of its kind
/// are values.
pub proof fn literals_have_their_type(v: ValueView, w: ValueView)
    ensures
        belongs(v, super::diagnosis::value_type(v)),
        is_scalar(v) ==> (belongs(w, super::diagnosis::value_type(v)) <==> same_kind(v, w)),
        v is Node || v is Edge || v is Path ==> (belongs(w, super::diagnosis::value_type(v)) <==> (
        v is Node && w is Node) || (v is Edge && w is Edge) || (v is Path && w is Path)),
        v is List ==> (belongs(w, super::diagnosis::value_type(v)) <==> w is List),
{
    reveal_with_fuel(crate::syntax::expr::conforms, 2);
}

/// No null occurs in the value.
pub open spec fn without_null(v: ValueView) -> bool
    decreases v,
{
    match v {
        ValueView::Null => false,
        ValueView::List(items) => forall|i: int|
            0 <= i < items.len() ==> without_null(#[trigger] items[i]),
        ValueView::Record(m) => m.dom().finite() && forall|k: Seq<char>| #[trigger]
            m.contains_key(k) ==> without_null(m[k]),
        _ => true,
    }
}

/// A stored value belongs to the type that is inferred for it.
pub proof fn stored_values_have_their_type(v: ValueView)
    requires
        without_null(v),
    ensures
        belongs(v, super::inference::stored_type(v)),
    decreases v,
{
    match v {
        ValueView::List(items) => {
            assert forall|i: int| 0 <= i < items.len() implies belongs(
                #[trigger] items[i],
                super::inference::stored_union(items),
            ) by {
                stored_values_have_their_type(items[i]);
                items_have_the_union(items, i);
            }
        },
        ValueView::Record(m) => {
            let t = super::inference::stored_type(v)->Record_0;
            assert(t.dom() =~= m.dom());
            assert forall|k: Seq<char>| #[trigger] t.contains_key(k) implies belongs(
                m[k],
                t[k],
            ) by {
                assert(m.contains_key(k));
                stored_values_have_their_type(m[k]);
            }
        },
        _ => {},
    }
}

proof fn items_have_the_union(items: Seq<ValueView>, i: int)
    requires
        0 <= i < items.len(),
        belongs(items[i], super::inference::stored_type(items[i])),
    ensures
        belongs(items[i], super::inference::stored_union(items)),
    decreases items.len(),
{
    if items.len() > 1 {
        let last = items.len() - 1;
        union_holds_both(
            items[i],
            super::inference::stored_union(items.drop_last()),
            super::inference::stored_type(items[last]),
        );
        if i < last {
            assert(items.drop_last()[i] == items[i]);
            items_have_the_union(items.drop_last(), i);
        }
    }
}

/// To the type that is inferred for a scalar exactly the scalars of its kind
/// belong, so the types of different kinds share nothing.
pub proof fn stored_kinds_stay_apart(v: ValueView, w: ValueView)
    requires
        is_scalar(v),
    ensures
        belongs(w, super::inference::stored_type(v)) <==> same_kind(v, w),
        is_scalar(w) ==> (super::inference::stored_type(v).meet(
            super::inference::stored_type(w),
        ).is_empty() <==> !same_kind(v, w)),
        is_scalar(w) ==> (super::inference::stored_type(v).subtype(
            super::inference::stored_type(w),
        ) <==> same_kind(v, w)),
{
}

/// What belongs to the type of an argument belongs to the type of a COALESCE of
/// them, and nothing else does.
pub proof fn coalesce_holds_its_arguments(ts: Seq<SimpleTypeView>, v: ValueView)
    requires
        ts.len() > 0,
    ensures
        belongs(v, super::judgment::union_types(ts)) <==> exists|i: int|
            0 <= i < ts.len() && belongs(v, #[trigger] ts[i]),
    decreases ts.len(),
{
    let all = super::judgment::union_types(ts);
    if ts.len() == 1 {
        assert(all == ts[0]);
    } else {
        let init = ts.drop_last();
        coalesce_holds_its_arguments(init, v);
        union_holds_both(v, super::judgment::union_types(init), ts.last());
        if belongs(v, super::judgment::union_types(init)) {
            let i = choose|i: int| 0 <= i < init.len() && belongs(v, #[trigger] init[i]);
            assert(belongs(v, ts[i]));
        }
        if belongs(v, ts.last()) {
            assert(belongs(v, ts[ts.len() - 1]));
        }
        if exists|i: int| 0 <= i < ts.len() && belongs(v, #[trigger] ts[i]) {
            let i = choose|i: int| 0 <= i < ts.len() && belongs(v, #[trigger] ts[i]);
            if i < init.len() {
                assert(belongs(v, init[i]));
            }
        }
    }
}

/// What belongs to the type of a branch of a CASE, or of its ELSE, belongs to the
/// type of the CASE.
pub proof fn case_holds_its_branches(
    s: Scope,
    branches: Seq<(Expr, Expr)>,
    env: Env,
    n: Notes,
    i: int,
    v: ValueView,
)
    requires
        0 <= i < branches.len(),
        ({
            let before = super::judgment::judge_branches(s, branches.take(i), env, n).1;
            let (ct, m) = super::judgment::judge_expr(s, branches[i].0, env, before);
            belongs(
                v,
                super::judgment::judge_expr(
                    s,
                    branches[i].1,
                    env,
                    super::judgment::condition_notes(ct, m),
                ).0,
            )
        }),
    ensures
        belongs(v, super::judgment::judge_branches(s, branches, env, n).0),
    decreases branches.len(),
{
    let init = branches.drop_last();
    let (t, n1) = super::judgment::judge_branches(s, init, env, n);
    let (ct, n2) = super::judgment::judge_expr(s, branches.last().0, env, n1);
    let vt = super::judgment::judge_expr(
        s,
        branches.last().1,
        env,
        super::judgment::condition_notes(ct, n2),
    ).0;
    union_holds_both(v, t, vt);
    if i < init.len() {
        assert(init.take(i) =~= branches.take(i));
        case_holds_its_branches(s, init, env, n, i, v);
    } else {
        assert(branches.take(i) =~= init);
    }
}

} // verus!
