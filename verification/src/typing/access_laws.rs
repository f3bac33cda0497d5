//! What the types of field accesses, references and calls say of the values that
//! come out.

use vstd::prelude::*;

use super::element_laws::Thing;
use super::judgment::{Notes, Scope};
use super::simple_type::SimpleTypeView;
use super::type_environment::Env;
use super::variable_type::VariableTypeView;
use crate::model::value::{PathValue, ValueView};
use crate::syntax::expr::{BinOp, Expr};
use crate::syntax::query::{Aggregator, GeneralSetKind, Query, SetQuantifier};

verus! {

/// An access to a field that nothing is said against gives a value of its type,
/// for every record that belongs to the type of the base.
pub proof fn fields_have_their_type(
    base: SimpleTypeView,
    field: Seq<char>,
    n: Notes,
    m: Map<Seq<char>, ValueView>,
)
    requires
        super::value_laws::belongs(ValueView::Record(m), base),
        m.contains_key(field),
        super::judgment::field_type(base, field, n).1 == n,
    ensures
        super::value_laws::belongs(m[field], super::judgment::field_type(base, field, n).0),
{
    match base {
        SimpleTypeView::Record(fields) => {
            assert(m.dom().contains(field));
            assert(fields.contains_key(field));
        },
        SimpleTypeView::Union(_, _) => {
            warned(n, "Field access <expr>."@ + field + " on non-record type "@ + base.text());
        },
        _ => {},
    }
}

proof fn warned(n: Notes, text: Seq<char>)
    ensures
        n.warn(text) != n,
        n.error(text) != n,
{
    assert(n.warn(text).warnings.len() == n.warnings.len() + 1);
    assert(n.error(text).errors.len() == n.errors.len() + 1);
}

/// What a path of fields leads to.
pub open spec fn at_path(v: ValueView, path: Seq<String>) -> Option<ValueView>
    decreases path.len(),
{
    if path.len() == 0 {
        Some(v)
    } else {
        match at_path(v, path.drop_last()) {
            Some(ValueView::Record(m)) => if m.contains_key(path.last()@) {
                Some(m[path.last()@])
            } else {
                None
            },
            _ => None,
        }
    }
}

/// Where nothing is said against a path of fields, what it leads to is of the
/// type found at its end.
pub proof fn paths_have_their_type(t: SimpleTypeView, path: Seq<String>, n: Notes, v: ValueView)
    requires
        super::value_laws::belongs(v, t),
        super::query_judgment::walked_type(t, path, n).1 == n,
        at_path(v, path) is Some,
    ensures
        super::value_laws::belongs(
            at_path(v, path)->Some_0,
            super::query_judgment::walked_type(t, path, n).0,
        ),
    decreases path.len(),
{
    if path.len() > 0 {
        let u = path.drop_last();
        let field = path.last()@;
        let (inner, n1) = super::query_judgment::walked_type(t, u, n);
        walks_only_add(t, u, n);
        walks_only_add(t, path, n);
        assert(n1.errors =~= n.errors) by {
            assert(n1.errors.len() <= n.errors.len());
        }
        assert(n1 == n);
        paths_have_their_type(t, u, n, v);
        let w = at_path(v, u)->Some_0;
        let m = w->Record_0;
        match inner {
            SimpleTypeView::Record(fields) => {
                assert(m.dom().contains(field));
                assert(fields.contains_key(field));
            },
            SimpleTypeView::Union(_, _) => {
                warned(
                    n,
                    "ORDER BY field `."@ + field + "` accesses a non-record type "@ + inner.text(),
                );
            },
            _ => {},
        }
    }
}

/// To walk a path of fields only adds errors.
pub proof fn walks_only_add(t: SimpleTypeView, path: Seq<String>, n: Notes)
    ensures
        super::query_judgment::walked_type(t, path, n).1.warnings == n.warnings,
        n.errors.is_prefix_of(super::query_judgment::walked_type(t, path, n).1.errors),
        path.len() > 0 ==> super::query_judgment::walked_type(
            t,
            path.drop_last(),
            n,
        ).1.errors.len() <= super::query_judgment::walked_type(t, path, n).1.errors.len(),
    decreases path.len(),
{
    if path.len() > 0 {
        walks_only_add(t, path.drop_last(), n);
    }
}

/// Whether a value stands for an element.
pub open spec fn stands_for(x: Thing, v: ValueView) -> bool {
    match x {
        Thing::Node(_) => v is Node,
        Thing::Edge { .. } => v is Edge,
        Thing::Null => v is Null,
        Thing::Path => v is Path,
    }
}

/// What a variable is bound to belongs, as a value, to the type that the variable
/// has as a value. Of nodes, edges and paths nothing else does.
pub proof fn references_have_their_type(x: Thing, v: ValueView, t: VariableTypeView)
    requires
        stands_for(x, v),
    ensures
        super::element_laws::is_of(x, t) ==> super::value_laws::belongs(
            v,
            super::diagnosis::reference_type(t),
        ),
        t is Node ==> (super::value_laws::belongs(v, super::diagnosis::reference_type(t))
            <==> x is Node),
        t is EdgeDirectional || t is EdgeNonDirectional ==> (super::value_laws::belongs(
            v,
            super::diagnosis::reference_type(t),
        ) <==> x is Edge),
        t is Path ==> (super::value_laws::belongs(v, super::diagnosis::reference_type(t))
            <==> x is Path),
        t is Zero ==> !super::value_laws::belongs(v, super::diagnosis::reference_type(t)),
    decreases t,
{
    match t {
        VariableTypeView::Union(a, b) => {
            references_have_their_type(x, v, *a);
            references_have_their_type(x, v, *b);
            super::value_laws::union_holds_both(
                v,
                super::diagnosis::reference_type(*a),
                super::diagnosis::reference_type(*b),
            );
        },
        _ => {},
    }
}

proof fn shares_paths(p: Seq<PathValue>, t: SimpleTypeView)
    ensures
        t.meet(SimpleTypeView::Path).is_empty() <==> !super::value_laws::belongs(
            ValueView::Path(p),
            t,
        ),
    decreases t,
{
    match t {
        SimpleTypeView::Union(a, b) => {
            shares_paths(p, *a);
            shares_paths(p, *b);
        },
        _ => {},
    }
}

/// Functions of a path take an argument that a path belongs to and are refused
/// otherwise. The length of a path and the number of its elements are integers,
/// its elements, nodes and edges are lists.
pub proof fn path_functions_take_paths(
    name: Seq<char>,
    args: Seq<Expr>,
    ts: Seq<SimpleTypeView>,
    n: Notes,
    p: Seq<PathValue>,
    v: ValueView,
)
    requires
        name == "ELEMENTS"@ || name == "NODES"@ || name == "EDGES"@ || name == "PATH_LENGTH"@
            || name == "CARDINALITY"@,
    ensures
        ({
            let (t, m) = super::judgment::call_type(name, args, ts, n);
            let fits = ts.len() > 0 && super::value_laws::belongs(ValueView::Path(p), ts[0]);
            &&& m.warnings == n.warnings
            &&& fits ==> m.errors == n.errors
            &&& !fits ==> m.errors.len() == n.errors.len() + 1 && m.errors.drop_last() == n.errors
            &&& name == "PATH_LENGTH"@ || name == "CARDINALITY"@ ==> (super::value_laws::belongs(
                v,
                t,
            ) <==> v is Int)
            &&& name == "ELEMENTS"@ || name == "NODES"@ || name == "EDGES"@ ==> (
            super::value_laws::belongs(v, t) <==> v is List)
        }),
{
    reveal_strlit("FLOOR");
    reveal_strlit("CAST");
    reveal_strlit("ELEMENTS");
    reveal_strlit("NODES");
    reveal_strlit("EDGES");
    reveal_strlit("PATH_LENGTH");
    reveal_strlit("CARDINALITY");
    assert("FLOOR"@.len() == 5 && "CAST"@.len() == 4 && "ELEMENTS"@.len() == 8);
    assert("NODES"@.len() == 5 && "NODES"@[0] == 'N' && "FLOOR"@[0] == 'F');
    assert("EDGES"@.len() == 5 && "EDGES"@[0] == 'E');
    assert("PATH_LENGTH"@.len() == 11 && "CARDINALITY"@.len() == 11);
    let (t, m) = super::judgment::call_type(name, args, ts, n);
    if ts.len() > 0 {
        shares_paths(p, ts[0]);
    }
    assert(m.errors == n.errors || m.errors.drop_last() =~= n.errors);
    reveal_with_fuel(crate::syntax::expr::conforms, 2);
}

/// A number rounded down is a floating-point number, and nothing is said of it.
/// A conversion has the type that it names, and is an error where it names none.
/// A function of another name is an error, and has no value.
pub proof fn calls_have_their_type(
    name: Seq<char>,
    args: Seq<Expr>,
    ts: Seq<SimpleTypeView>,
    n: Notes,
    v: ValueView,
)
    ensures
        ({
            let (t, m) = super::judgment::call_type(name, args, ts, n);
            let names_type = args.len() > 1 && args[1] is Type;
            &&& m.warnings == n.warnings
            &&& name == "FLOOR"@ ==> m == n && (super::value_laws::belongs(v, t) <==> v is Float)
            &&& name == "CAST"@ && names_type ==> m == n && t == args[1]->Type_0@
            &&& name == "CAST"@ && !names_type ==> m.errors.len() == n.errors.len() + 1 && t is Zero
            &&& name != "FLOOR"@ && name != "CAST"@ && name != "ELEMENTS"@ && name != "NODES"@
                && name != "EDGES"@ && name != "PATH_LENGTH"@ && name != "CARDINALITY"@
                ==> m.errors.len() == n.errors.len() + 1 && t is Zero
        }),
{
    reveal_strlit("FLOOR");
    reveal_strlit("CAST");
    assert("FLOOR"@.len() == 5 && "CAST"@.len() == 4);
    if name == "CAST"@ {
        assert(name != "FLOOR"@);
    }
}

/// Counting gives integers, an average floating-point numbers, a sum numbers of
/// either kind. The smallest and the largest are of the type of what they are
/// chosen from, and so are the items of a list of them. Nothing is said but of
/// the expression itself.
pub proof fn aggregates_have_their_type(
    s: Scope,
    kind: GeneralSetKind,
    quantifier: SetQuantifier,
    expr: Expr,
    env: Env,
    n: Notes,
    v: ValueView,
)
    ensures
        ({
            let (inner, n1) = super::judgment::judge_expr(s, expr, env, n);
            let (t, m) = super::judgment::judge_aggregate(
                s,
                Aggregator::GeneralSet { kind, quantifier, expr },
                env,
                n,
            );
            &&& m == n1
            &&& kind is Count ==> (super::value_laws::belongs(v, t) <==> v is Int)
            &&& kind is Avg ==> (super::value_laws::belongs(v, t) <==> v is Float)
            &&& kind is Sum ==> (super::value_laws::belongs(v, t) <==> v is Int || v is Float)
            &&& kind is Min || kind is Max ==> (super::value_laws::belongs(v, t)
                <==> super::value_laws::belongs(v, inner))
            &&& kind is CollectList ==> (super::value_laws::belongs(v, t) <==> v is List && forall|
                i: int,
            |
                0 <= i < v->List_0.len() ==> super::value_laws::belongs(
                    #[trigger] v->List_0[i],
                    inner,
                ))
        }),
        super::judgment::judge_aggregate(s, Aggregator::CountStar, env, n).1 == n,
        super::value_laws::belongs(
            v,
            super::judgment::judge_aggregate(s, Aggregator::CountStar, env, n).0,
        ) <==> v is Int,
{
    reveal_with_fuel(crate::syntax::expr::conforms, 3);
}

/// A record has a field of each name that is given, of the type of the expression
/// given last under the name, and no other.
pub proof fn records_have_their_fields(
    s: Scope,
    fields: Seq<(String, Expr)>,
    env: Env,
    n: Notes,
    i: int,
    k: Seq<char>,
)
    ensures
        ({
            let m = super::judgment::judge_fields(s, fields, env, n).0;
            &&& m.contains_key(k) <==> exists|j: int|
                0 <= j < fields.len() && (#[trigger] fields[j]).0@ == k
            &&& 0 <= i < fields.len() && fields[i].0@ == k && (forall|j: int|
                i < j < fields.len() ==> (#[trigger] fields[j]).0@ != k) ==> m[k]
                == super::judgment::judge_expr(s, fields[i].1, env, Notes::none()).0
        }),
    decreases fields.len(),
{
    if fields.len() > 0 {
        let u = fields.drop_last();
        records_have_their_fields(s, u, env, n, i, k);
        let n1 = super::judgment::judge_fields(s, u, env, n).1;
        super::note_laws::expr_appends(s, fields.last().1, env, n1);
        assert(fields[fields.len() - 1] == fields.last());
        if exists|j: int| 0 <= j < u.len() && (#[trigger] u[j]).0@ == k {
            let j = choose|j: int| 0 <= j < u.len() && (#[trigger] u[j]).0@ == k;
            assert(fields[j].0@ == k);
        }
        if exists|j: int| 0 <= j < fields.len() && (#[trigger] fields[j]).0@ == k {
            let j = choose|j: int| 0 <= j < fields.len() && (#[trigger] fields[j]).0@ == k;
            if j < u.len() {
                assert(u[j].0@ == k);
            }
        }
        if 0 <= i < u.len() && fields[i].0@ == k && (forall|j: int|
            i < j < fields.len() ==> (#[trigger] fields[j]).0@ != k) {
            assert(u[i] == fields[i]);
            assert forall|j: int| i < j < u.len() implies (#[trigger] u[j]).0@ != k by {
                assert(fields[j].0@ != k);
            }
            assert(fields[fields.len() - 1].0@ != k);
        }
    }
}

/// A record expression is of records of its fields. A list comprehension gives
/// lists of what its body gives, in which its variable is known. A source that is
/// no list is warned of.
pub proof fn constructed_values_have_their_type(
    s: Scope,
    var: String,
    source: Expr,
    body: Expr,
    fields: Vec<(String, Expr)>,
    env: Env,
    n: Notes,
    v: ValueView,
)
    ensures
        ({
            let (t, m) = super::judgment::judge_expr(s, Expr::Record { fields }, env, n);
            &&& t == SimpleTypeView::Record(
                super::judgment::judge_fields(s, fields@, env, n).0,
            )
            &&& m == super::judgment::judge_fields(s, fields@, env, n).1
        }),
        ({
            let (st, n1) = super::judgment::judge_expr(s, source, env, n);
            let inner = Scope { locals: s.locals.push(var@), ..s };
            let (bt, more) = super::judgment::judge_expr(inner, body, env, Notes::none());
            let (t, m) = super::judgment::judge_expr(
                s,
                Expr::ListComprehension {
                    var,
                    source: Box::new(source),
                    filter: None,
                    body: Box::new(body),
                },
                env,
                n,
            );
            &&& super::value_laws::belongs(v, t) <==> v is List && forall|i: int|
                0 <= i < v->List_0.len() ==> super::value_laws::belongs(#[trigger] v->List_0[i], bt)
            &&& m.errors == n1.errors + more.errors
            &&& st is List || st is Star ==> m.warnings == n1.warnings + more.warnings
            &&& !(st is List || st is Star) ==> m.warnings.len() == n1.warnings.len()
                + more.warnings.len() + 1
        }),
{
    let (st, n1) = super::judgment::judge_expr(s, source, env, n);
    let inner = s.with_local(var@);
    let n2 = super::judgment::source_notes(st, n1);
    super::note_laws::expr_appends(inner, body, env, n2);
    reveal_with_fuel(crate::syntax::expr::conforms, 2);
}

/// A condition of a list comprehension that no truth value belongs to is warned
/// of, and no other.
pub proof fn conditions_of_lists_can_be_true(t: SimpleTypeView, n: Notes)
    ensures
        super::value_laws::can_be_bool(t) ==> super::judgment::where_notes(t, n) == n,
        !super::value_laws::can_be_bool(t) ==> super::judgment::where_notes(t, n).errors == n.errors
            && super::judgment::where_notes(t, n).warnings.len() == n.warnings.len() + 1,
{
    shares_truth(t);
}

proof fn shares_truth(t: SimpleTypeView)
    ensures
        t.meet(SimpleTypeView::B) is Zero <==> !super::value_laws::can_be_bool(t),
    decreases t,
{
    match t {
        SimpleTypeView::Union(a, b) => {
            shares_truth(*a);
            shares_truth(*b);
        },
        _ => {},
    }
}

/// A test for matches gives a truth value. A subquery for a value has the type of
/// its first item, and is an error where it has none. A conversion with `as` has
/// the type that it names.
pub proof fn subqueries_have_their_type(
    s: Scope,
    q: Query,
    operand: Expr,
    ty: super::simple_type::SimpleType,
    env: Env,
    n: Notes,
)
    ensures
        super::value_laws::is_truth(
            super::judgment::judge_expr(s, Expr::Exists { body: Box::new(q) }, env, n).0,
        ),
        super::value_laws::is_truth(
            super::judgment::judge_expr(s, Expr::NotExists { body: Box::new(q) }, env, n).0,
        ),
        super::judgment::judge_expr(s, Expr::Exists { body: Box::new(q) }, env, n).1
            == super::judgment::judge_expr(s, Expr::NotExists { body: Box::new(q) }, env, n).1,
        ({
            let (t, m) = super::judgment::judge_expr(
                s,
                Expr::ValueSubquery { body: Box::new(q) },
                env,
                n,
            );
            let (path, inner, n1) = super::judgment::judge_body(
                Scope { outer: s.outer.push(env), ..s },
                q.matches@,
                env,
                n,
            );
            let some = q.returns is Some && q.returns->Some_0@.len() > 0;
            &&& !some ==> m.errors.len() == n1.errors.len() + 1 && t is Zero
            &&& some && q.returns->Some_0@[0] is Expr ==> (t, m) == super::judgment::judge_expr(
                s,
                q.returns->Some_0@[0]->expr,
                inner,
                n1,
            )
            &&& some && q.returns->Some_0@[0] is Aggregate ==> (t, m)
                == super::judgment::judge_aggregate(s, q.returns->Some_0@[0]->agg, inner, n1)
        }),
        super::judgment::judge_expr(
            s,
            Expr::Binop {
                op: BinOp::As,
                left: Box::new(operand),
                right: Box::new(Expr::Type(ty)),
            },
            env,
            n,
        ) == (ty@, super::judgment::judge_expr(s, operand, env, n).1),
{
    reveal_with_fuel(super::judgment::judge_expr, 2);
    reveal_with_fuel(super::judgment::judge_value, 2);
}

} // verus!
