//! The type checker for patterns and queries.
//!
//! What is found and said is defined in `judgment`; this module computes it.

use vstd::prelude::*;

use super::descriptor_type::DescriptorType;
use super::diagnosis::{
    diagnose_edge_mismatch, diagnose_node_mismatch, short_var_type, simple_type_of_value,
    variable_type_to_simple_type,
};
use super::judgment::{Notes, Scope, Shape};
use super::path_type::{EdgeDir, PathType};
use super::simple_type::{SimpleType, SimpleTypeView};
use super::type_environment::{Env, TypeEnvironment};
use super::variable_type::{Schema, VariableType};
use crate::fields::FieldMap;
use crate::syntax::descriptor::Descriptor;
use crate::syntax::expr::{BinOp, Expr, UnOp};
use crate::syntax::path_pattern::PathPattern;
use crate::syntax::query::{Aggregator, GeneralSetKind, MatchStatement, Query, ReturnItem};
use crate::text::{copy_text, quoted_text, same_text};

verus! {

/// What is found of a pattern or a query.
#[derive(Debug)]
pub struct TypecheckResult {
    pub path: PathType,
    pub env: TypeEnvironment,
    /// No errors were found.
    pub ok: bool,
    /// No match can exist.
    pub empty: bool,
}

impl Clone for TypecheckResult {
    fn clone(&self) -> (r: Self)
        ensures
            r.shape() == self.shape(),
            r.ok == self.ok,
            r.empty == self.empty,
    {
        TypecheckResult {
            path: self.path.clone(),
            env: self.env.clone(),
            ok: self.ok,
            empty: self.empty,
        }
    }
}

impl TypecheckResult {
    /// The shape and the bindings.
    pub open spec fn shape(self) -> Shape {
        Shape { path: self.path@, env: self.env@ }
    }

    fn new(path: PathType, env: TypeEnvironment) -> (r: Self)
        ensures
            r.shape() == (Shape { path: path@, env: env@ }),
            r.ok,
            !r.empty,
    {
        TypecheckResult { path, env, ok: true, empty: false }
    }
}

/// The type checker: a schema, and the errors and warnings of the last check.
pub struct Typechecker {
    pub schema: Schema,
    pub errors: Vec<String>,
    pub warnings: Vec<String>,
    /// The variables of the enclosing list comprehensions; none between checks.
    pub comprehension_scope: Vec<String>,
    /// The environments of the enclosing queries, the nearest last; none
    /// between checks.
    pub ambient_env: Vec<TypeEnvironment>,
}

/// The value of each environment.
pub open spec fn env_views(v: Seq<TypeEnvironment>) -> Seq<Env> {
    Seq::new(v.len(), |i: int| v[i]@)
}

/// The value of each type.
pub open spec fn simple_views(v: Seq<SimpleType>) -> Seq<SimpleTypeView> {
    Seq::new(v.len(), |i: int| v[i]@)
}

/// The type that a descriptor asks for.
fn descriptor_type_of(desc: &Option<Descriptor>) -> (r: DescriptorType)
    ensures
        r@ == super::judgment::asked(*desc),
{
    match desc {
        Some(d) => d.dtype.clone(),
        None => DescriptorType::star(),
    }
}

/// The bindings of a node or an edge pattern.
fn create_context(desc: &Option<Descriptor>, t: VariableType) -> (r: TypeEnvironment)
    ensures
        r@ == super::type_environment::env_of(super::judgment::bound_name(*desc), t@),
{
    match desc {
        Some(d) => TypeEnvironment::create_context(d, t),
        None => TypeEnvironment::new(),
    }
}

/// What is said of equalities left in a descriptor, given the variable as it
/// is shown.
pub fn leftover_filters_text(shown: &str) -> (r: String)
    ensures
        r@ == super::judgment::leftover_text(shown@),
{
    let mut s = copy_text("Descriptor for ");
    s.append(shown);
    s.append(" still carries value_filters at typecheck time (elaboration bug)");
    s
}

impl Typechecker {
    /// Where the next pattern or expression stands.
    pub open spec fn scope(&self) -> Scope {
        Scope {
            schema: self.schema@,
            locals: crate::text::texts(self.comprehension_scope@),
            outer: env_views(self.ambient_env@),
        }
    }

    /// The errors and warnings so far.
    pub open spec fn notes(&self) -> Notes {
        Notes {
            errors: crate::text::texts(self.errors@),
            warnings: crate::text::texts(self.warnings@),
        }
    }

    /// A checker over a schema, outside of any query.
    pub fn new(schema: Schema) -> (r: Self)
        ensures
            r.scope() == (Scope { schema: schema@, locals: Seq::empty(), outer: Seq::empty() }),
            r.notes() == Notes::none(),
    {
        let r = Typechecker {
            schema,
            errors: Vec::new(),
            warnings: Vec::new(),
            comprehension_scope: Vec::new(),
            ambient_env: Vec::new(),
        };
        assert(r.scope().locals =~= Seq::empty());
        assert(r.scope().outer =~= Seq::empty());
        assert(r.notes().errors =~= Seq::empty());
        assert(r.notes().warnings =~= Seq::empty());
        r
    }

    /// A checker that admits everything.
    pub fn untyped() -> (r: Self)
        ensures
            r.scope() == (Scope {
                schema: super::variable_type::SchemaView::star(),
                locals: Seq::empty(),
                outer: Seq::empty(),
            }),
            r.notes() == Notes::none(),
    {
        Typechecker::new(Schema::star())
    }

    /// Adds an error.
    pub(crate) fn error(&mut self, text: String)
        ensures
            final(self).notes() == old(self).notes().error(text@),
            final(self).scope() == old(self).scope(),
    {
        self.errors.push(text);
        assert(self.notes().errors =~= old(self).notes().error(text@).errors);
    }

    /// Adds a warning.
    pub(crate) fn warn(&mut self, text: String)
        ensures
            final(self).notes() == old(self).notes().warn(text@),
            final(self).scope() == old(self).scope(),
    {
        self.warnings.push(text);
        assert(self.notes().warnings =~= old(self).notes().warn(text@).warnings);
    }

    /// Whether a list comprehension binds the name.
    fn is_local(&self, name: &str) -> (r: bool)
        ensures
            r == self.scope().locals.contains(name@),
    {
        let mut i: usize = 0;
        while i < self.comprehension_scope.len()
            invariant
                i <= self.comprehension_scope.len(),
                forall|j: int| 0 <= j < i ==> #[trigger] self.scope().locals[j] != name@,
            decreases self.comprehension_scope.len() - i,
        {
            assert(self.scope().locals[i as int] == self.comprehension_scope@[i as int]@);
            if same_text(self.comprehension_scope[i].as_str(), name) {
                return true;
            }
            i = i + 1;
        }
        false
    }

    /// The type of an expression.
    pub(crate) fn check_expr(&mut self, e: &Expr, env: &TypeEnvironment) -> (r: SimpleType)
        requires
            super::judgment::expr_ready(*e),
        ensures
            (r@, final(self).notes()) == super::judgment::judge_expr(
                old(self).scope(),
                *e,
                env@,
                old(self).notes(),
            ),
            final(self).scope() == old(self).scope(),
        decreases e,
    {
        match e {
            Expr::Const(v) => simple_type_of_value(v),
            Expr::Type(t) => t.clone(),
            Expr::Var(name) => self.check_var(name, env),
            Expr::AttrLookup { var, attr } => self.check_attribute(var, attr, env),
            Expr::FieldAccess { base, field } => {
                let base_t = self.check_expr(base, env);
                self.check_field(base_t, field)
            },
            Expr::Binop { op, left, right } => {
                let t1 = self.check_expr(left, env);
                if let Expr::Type(t) = &**right {
                    if *op == BinOp::Is {
                        return SimpleType::B;
                    }
                    if *op == BinOp::As {
                        return t.clone();
                    }
                }
                let t2 = self.check_expr(right, env);
                self.check_binop(*op, t1, t2)
            },
            Expr::Unop { op, operand } => {
                let t = self.check_expr(operand, env);
                self.check_unop(*op, t)
            },
            Expr::IsNull { operand, .. } => {
                let _ = self.check_expr(operand, env);
                SimpleType::B
            },
            Expr::Coalesce(args) => {
                let ts = self.check_all(args, env);
                union_of(&ts)
            },
            Expr::Call { name, args } => {
                let ts = self.check_all(args, env);
                self.check_call(name, args, ts)
            },
            Expr::Case { branches, else_expr } => {
                let acc = self.check_branches(branches, env);
                match else_expr {
                    Some(value) => {
                        let else_t = self.check_expr(value, env);
                        SimpleType::union(&acc, &else_t)
                    },
                    None => SimpleType::union(&acc, &SimpleType::Zero),
                }
            },
            Expr::ListComprehension { var, source, filter, body } => {
                let src_t = self.check_expr(source, env);
                self.check_source(&src_t);
                let ghost outside = self.comprehension_scope@;
                let ghost scope = self.scope();
                self.comprehension_scope.push(var.clone());
                assert(self.scope().locals =~= scope.with_local(var@).locals);
                if let Some(f) = filter {
                    let f_t = self.check_expr(f, env);
                    self.check_where(&f_t);
                }
                let body_t = self.check_expr(body, env);
                assert(crate::text::texts(self.comprehension_scope@) == scope.with_local(
                    var@,
                ).locals);
                assert(self.comprehension_scope@.len() == scope.locals.len() + 1);
                let ghost full = self.comprehension_scope@;
                let _ = self.comprehension_scope.pop();
                proof {
                    assert(self.comprehension_scope@ == full.drop_last());
                    assert(self.scope().locals =~= crate::text::texts(full).drop_last());
                    assert(scope.with_local(var@).locals.drop_last() =~= scope.locals);
                }
                SimpleType::List(Box::new(body_t))
            },
            Expr::Record { fields } => {
                let m = self.check_fields(fields, env);
                let r = SimpleType::Record(m);
                assert(r@->Record_0 =~= super::simple_type::fields_view(m));
                r
            },
            Expr::ValueSubquery { body } => self.check_value(body, env),
            Expr::Exists { body } => {
                let _ = self.check_subquery_body(&body.matches, env);
                SimpleType::B
            },
            Expr::NotExists { body } => {
                let _ = self.check_subquery_body(&body.matches, env);
                SimpleType::B
            },
            Expr::Agg(agg) => self.check_aggregator(agg, env),
        }
    }

    /// The type of a variable.
    fn check_var(&mut self, name: &String, env: &TypeEnvironment) -> (r: SimpleType)
        ensures
            (r@, final(self).notes()) == super::judgment::var_type(
                old(self).scope(),
                name@,
                env@,
                old(self).notes(),
            ),
            final(self).scope() == old(self).scope(),
    {
        if self.is_local(name.as_str()) {
            return SimpleType::Star;
        }
        match env.get(name.as_str()) {
            Some(t) => variable_type_to_simple_type(t),
            None => {
                let mut s = copy_text("Variable ");
                s.append(name.as_str());
                s.append(" not found in context");
                self.error(s);
                SimpleType::Zero
            },
        }
    }

    /// The type of an attribute of a variable.
    fn check_attribute(&mut self, var: &String, attr: &String, env: &TypeEnvironment) -> (r:
        SimpleType)
        ensures
            (r@, final(self).notes()) == super::judgment::attribute_type(
                old(self).scope(),
                var@,
                attr@,
                env@,
                old(self).notes(),
            ),
            final(self).scope() == old(self).scope(),
    {
        if self.is_local(var.as_str()) {
            return SimpleType::Star;
        }
        match env.get(var.as_str()) {
            Some(t) => {
                if let VariableType::Zero = t {
                    let mut s = copy_text("Variable ");
                    s.append(var.as_str());
                    s.append(" is bound to empty type");
                    self.warn(s);
                    return SimpleType::Zero;
                }
                let at = t.get_attribute(attr.as_str());
                if at.is_empty() {
                    let mut s = copy_text("Attribute ");
                    s.append(attr.as_str());
                    s.append(" not found in ");
                    s.append(t.to_string().as_str());
                    self.warn(s);
                }
                at
            },
            None => {
                let mut s = copy_text("Variable ");
                s.append(var.as_str());
                s.append(" not found in context");
                self.error(s);
                SimpleType::Zero
            },
        }
    }

    /// The type of a field of a value of type `base_t`.
    fn check_field(&mut self, base_t: SimpleType, field: &String) -> (r: SimpleType)
        ensures
            (r@, final(self).notes()) == super::judgment::field_type(
                base_t@,
                field@,
                old(self).notes(),
            ),
            final(self).scope() == old(self).scope(),
    {
        match &base_t {
            SimpleType::Record(fields) => match fields.get(field.as_str()) {
                Some(t) => t.clone(),
                None => {
                    let mut s = copy_text("Field ");
                    s.append(field.as_str());
                    s.append(" not found in record ");
                    s.append(base_t.to_string().as_str());
                    self.warn(s);
                    SimpleType::Zero
                },
            },
            SimpleType::Star => base_t,
            SimpleType::Zero => base_t,
            _ => {
                let mut s = copy_text("Field access <expr>.");
                s.append(field.as_str());
                s.append(" on non-record type ");
                s.append(base_t.to_string().as_str());
                self.warn(s);
                SimpleType::Zero
            },
        }
    }

    /// The type of a binary operation.
    fn check_binop(&mut self, op: BinOp, t1: SimpleType, t2: SimpleType) -> (r: SimpleType)
        ensures
            (r@, final(self).notes()) == super::judgment::binop_type(
                op,
                t1@,
                t2@,
                old(self).notes(),
            ),
            final(self).scope() == old(self).scope(),
    {
        let (expected_t1, expected_t2, result_t) = op.delta(&t1, &t2);
        let m1 = SimpleType::meet(&t1, &expected_t1);
        let m2 = SimpleType::meet(&t2, &expected_t2);
        if !is_zero(&m1) && !is_zero(&m2) {
            result_t
        } else {
            let mut s = copy_text("Binop ");
            s.append(op.variant_name());
            s.append(" between types ");
            s.append(t1.to_string().as_str());
            s.append(" and ");
            s.append(t2.to_string().as_str());
            s.append(" is not defined");
            self.warn(s);
            SimpleType::Zero
        }
    }

    /// The type of a unary operation.
    fn check_unop(&mut self, op: UnOp, t: SimpleType) -> (r: SimpleType)
        ensures
            final(self).scope() == old(self).scope(),
            !(t@.meet(op.signature().0) is Zero) ==> r@ == op.signature().1 && final(self).notes()
                == old(self).notes(),
            t@.meet(op.signature().0) is Zero ==> r@ is Zero && final(self).notes() == old(self).notes().warn(
                "Unop "@ + op.name() + " on type "@ + t@.text() + " is not defined"@,
            ),
    {
        let (expected_t, result_t) = op.delta();
        let m = SimpleType::meet(&t, &expected_t);
        if !is_zero(&m) {
            result_t
        } else {
            let mut s = copy_text("Unop ");
            s.append(op.variant_name());
            s.append(" on type ");
            s.append(t.to_string().as_str());
            s.append(" is not defined");
            self.warn(s);
            SimpleType::Zero
        }
    }

    /// The types of several expressions.
    pub(crate) fn check_all(&mut self, args: &Vec<Expr>, env: &TypeEnvironment) -> (r: Vec<SimpleType>)
        requires
            super::judgment::all_ready(args@),
        ensures
            r@.len() == args@.len(),
            (simple_views(r@), final(self).notes()) == super::judgment::judge_all(
                old(self).scope(),
                args@,
                env@,
                old(self).notes(),
            ),
            final(self).scope() == old(self).scope(),
        decreases args,
    {
        let mut out: Vec<SimpleType> = Vec::new();
        let mut i: usize = 0;
        assert(simple_views(out@) =~= Seq::empty());
        while i < args.len()
            invariant
                i <= args.len(),
                out@.len() == i,
                super::judgment::all_ready(args@),
                self.scope() == old(self).scope(),
                (simple_views(out@), self.notes()) == super::judgment::judge_all(
                    old(self).scope(),
                    args@.take(i as int),
                    env@,
                    old(self).notes(),
                ),
            decreases args.len() - i,
        {
            assert(args@.take(i + 1).drop_last() =~= args@.take(i as int));
            let ghost before = out@;
            let t = self.check_expr(&args[i], env);
            out.push(t);
            assert(simple_views(out@) =~= simple_views(before).push(t@));
            i = i + 1;
        }
        assert(args@.take(i as int) =~= args@);
        out
    }

    /// The type of a call whose arguments have the types `ts`.
    fn check_call(&mut self, name: &String, args: &Vec<Expr>, ts: Vec<SimpleType>) -> (r:
        SimpleType)
        ensures
            (r@, final(self).notes()) == super::judgment::call_type(
                name@,
                args@,
                simple_views(ts@),
                old(self).notes(),
            ),
            final(self).scope() == old(self).scope(),
    {
        if same_text(name.as_str(), "FLOOR") {
            return SimpleType::F;
        }
        if same_text(name.as_str(), "CAST") {
            if args.len() > 1 {
                if let Expr::Type(t) = &args[1] {
                    return t.clone();
                }
            }
            self.error(copy_text("CAST is missing its target type"));
            return SimpleType::Zero;
        }
        let counts = same_text(name.as_str(), "PATH_LENGTH") || same_text(
            name.as_str(),
            "CARDINALITY",
        );
        let lists = same_text(name.as_str(), "ELEMENTS") || same_text(name.as_str(), "NODES")
            || same_text(name.as_str(), "EDGES");
        if counts || lists {
            if ts.len() == 0 {
                let mut s = copy_text(name.as_str());
                s.append(" expects one PATH argument, got none");
                self.error(s);
            } else {
                assert(simple_views(ts@)[0] == ts@[0]@);
                let m = SimpleType::meet(&ts[0], &SimpleType::Path);
                if m.is_empty() {
                    let mut s = copy_text(name.as_str());
                    s.append(" expects a PATH argument, got ");
                    s.append(ts[0].to_string().as_str());
                    self.error(s);
                }
            }
            if counts {
                return SimpleType::Z;
            }
            let any = SimpleType::Star;
            assert(any@ == SimpleTypeView::Star);
            return SimpleType::List(Box::new(any));
        }
        let mut s = copy_text("unknown built-in function `");
        s.append(name.as_str());
        s.append("`");
        self.error(s);
        SimpleType::Zero
    }

    /// The union of the types of the branches of a CASE.
    fn check_branches(&mut self, branches: &Vec<(Expr, Expr)>, env: &TypeEnvironment) -> (r:
        SimpleType)
        requires
            super::judgment::branches_ready(branches@),
        ensures
            (r@, final(self).notes()) == super::judgment::judge_branches(
                old(self).scope(),
                branches@,
                env@,
                old(self).notes(),
            ),
            final(self).scope() == old(self).scope(),
        decreases branches,
    {
        let mut acc = SimpleType::Zero;
        let mut i: usize = 0;
        while i < branches.len()
            invariant
                i <= branches.len(),
                super::judgment::branches_ready(branches@),
                self.scope() == old(self).scope(),
                (acc@, self.notes()) == super::judgment::judge_branches(
                    old(self).scope(),
                    branches@.take(i as int),
                    env@,
                    old(self).notes(),
                ),
            decreases branches.len() - i,
        {
            assert(branches@.take(i + 1).drop_last() =~= branches@.take(i as int));
            assert(decreases_to!(branches@[i as int] => branches@[i as int].0));
            assert(decreases_to!(branches@[i as int] => branches@[i as int].1));
            let cond_t = self.check_expr(&branches[i].0, env);
            let m = SimpleType::meet(&cond_t, &SimpleType::B);
            if is_zero(&m) {
                let mut s = copy_text("CASE WHEN condition has non-bool type ");
                s.append(cond_t.to_string().as_str());
                self.warn(s);
            }
            let value_t = self.check_expr(&branches[i].1, env);
            acc = SimpleType::union(&acc, &value_t);
            i = i + 1;
        }
        assert(branches@.take(i as int) =~= branches@);
        acc
    }

    /// The source of a list comprehension.
    fn check_source(&mut self, src_t: &SimpleType)
        ensures
            final(self).notes() == super::judgment::source_notes(src_t@, old(self).notes()),
            final(self).scope() == old(self).scope(),
    {
        let listed = match src_t {
            SimpleType::List(_) => true,
            SimpleType::Star => true,
            _ => false,
        };
        if !listed {
            let mut s = copy_text("list comprehension source has non-list type ");
            s.append(src_t.to_string().as_str());
            self.warn(s);
        }
    }

    /// The filter of a list comprehension.
    fn check_where(&mut self, f_t: &SimpleType)
        ensures
            final(self).notes() == super::judgment::where_notes(f_t@, old(self).notes()),
            final(self).scope() == old(self).scope(),
    {
        let m = SimpleType::meet(f_t, &SimpleType::B);
        if is_zero(&m) {
            let mut s = copy_text("list comprehension WHERE has non-bool type ");
            s.append(f_t.to_string().as_str());
            self.warn(s);
        }
    }

    /// The types of the fields of a record.
    fn check_fields(&mut self, fields: &Vec<(String, Expr)>, env: &TypeEnvironment) -> (r: FieldMap<
        SimpleType,
    >)
        requires
            super::judgment::fields_ready(fields@),
        ensures
            (super::simple_type::fields_view(r), final(self).notes())
                == super::judgment::judge_fields(
                old(self).scope(),
                fields@,
                env@,
                old(self).notes(),
            ),
            final(self).scope() == old(self).scope(),
        decreases fields,
    {
        let mut m: FieldMap<SimpleType> = FieldMap::new();
        let mut i: usize = 0;
        assert(super::simple_type::fields_view(m) =~= Map::empty());
        while i < fields.len()
            invariant
                i <= fields.len(),
                super::judgment::fields_ready(fields@),
                self.scope() == old(self).scope(),
                (super::simple_type::fields_view(m), self.notes())
                    == super::judgment::judge_fields(
                    old(self).scope(),
                    fields@.take(i as int),
                    env@,
                    old(self).notes(),
                ),
            decreases fields.len() - i,
        {
            assert(fields@.take(i + 1).drop_last() =~= fields@.take(i as int));
            assert(decreases_to!(fields@[i as int] => fields@[i as int].1));
            let ghost before = super::simple_type::fields_view(m);
            let t = self.check_expr(&fields[i].1, env);
            m.insert(fields[i].0.clone(), t);
            assert(super::simple_type::fields_view(m) =~= before.insert(
                fields@[i as int].0@,
                t@,
            ));
            i = i + 1;
        }
        assert(fields@.take(i as int) =~= fields@);
        m
    }

    /// The type of the value that a subquery yields.
    fn check_value(&mut self, body: &Query, env: &TypeEnvironment) -> (r: SimpleType)
        requires
            super::judgment::value_ready(*body),
        ensures
            (r@, final(self).notes()) == super::judgment::judge_value(
                old(self).scope(),
                *body,
                env@,
                old(self).notes(),
            ),
            final(self).scope() == old(self).scope(),
        decreases body,
    {
        let r = self.check_subquery_body(&body.matches, env);
        if let Some(items) = &body.returns {
            if items.len() > 0 {
                assert(decreases_to!(body => body.returns));
                assert(decreases_to!(body.returns => body.returns->0));
                return match &items[0] {
                    ReturnItem::Expr { expr, .. } => self.check_expr(expr, &r.env),
                    ReturnItem::Aggregate { agg, .. } => self.check_aggregator(agg, &r.env),
                };
            }
        }
        self.error(copy_text("VALUE subquery has no RETURN item"));
        SimpleType::Zero
    }

    /// The type of an aggregate.
    pub(crate) fn check_aggregator(&mut self, agg: &Aggregator, env: &TypeEnvironment) -> (r: SimpleType)
        requires
            super::judgment::aggregate_ready(*agg),
        ensures
            (r@, final(self).notes()) == super::judgment::judge_aggregate(
                old(self).scope(),
                *agg,
                env@,
                old(self).notes(),
            ),
            final(self).scope() == old(self).scope(),
        decreases agg,
    {
        match agg {
            Aggregator::CountStar => SimpleType::Z,
            Aggregator::GeneralSet { kind, expr, .. } => {
                let inner = self.check_expr(expr, env);
                match kind {
                    GeneralSetKind::Count => SimpleType::Z,
                    GeneralSetKind::Avg => SimpleType::F,
                    GeneralSetKind::Sum => SimpleType::union(&SimpleType::Z, &SimpleType::F),
                    GeneralSetKind::Min => inner,
                    GeneralSetKind::Max => inner,
                    GeneralSetKind::CollectList => SimpleType::List(Box::new(inner)),
                }
            },
        }
    }
}

/// Whether a type is bottom.
fn is_zero(t: &SimpleType) -> (r: bool)
    ensures
        r == (t@ is Zero),
{
    match t {
        SimpleType::Zero => true,
        _ => false,
    }
}

/// The union of several types.
fn union_of(ts: &Vec<SimpleType>) -> (r: SimpleType)
    requires
        ts@.len() > 0,
    ensures
        r@ == super::judgment::union_types(simple_views(ts@)),
{
    let ghost views = simple_views(ts@);
    let mut acc = ts[0].clone();
    let mut i: usize = 1;
    assert(views.take(1)[0] == ts@[0]@);
    while i < ts.len()
        invariant
            1 <= i <= ts.len(),
            views == simple_views(ts@),
            acc@ == super::judgment::union_types(views.take(i as int)),
        decreases ts.len() - i,
    {
        assert(views.take(i + 1).drop_last() =~= views.take(i as int));
        acc = SimpleType::union(&acc, &ts[i]);
        i = i + 1;
    }
    assert(views.take(i as int) =~= views);
    acc
}

impl Typechecker {
    /// The body of a subquery: the shape of its first clause and the bindings
    /// of all, joined onto those of the enclosing query.
    fn check_subquery_body(
        &mut self,
        matches: &Vec<MatchStatement>,
        outer: &TypeEnvironment,
    ) -> (r: TypecheckResult)
        requires
            super::judgment::body_ready(matches@),
        ensures
            ({
                let (path, env, n) = super::judgment::judge_body(
                    old(self).scope().with_outer(outer@),
                    matches@,
                    outer@,
                    old(self).notes(),
                );
                &&& r.env@ == env
                &&& final(self).notes() == n
                &&& r.path@ == match path {
                    Some(p) => p,
                    None => super::path_type::PathTypeView::Zero,
                }
                &&& r.empty == (r.path@.is_unsatisfiable() || super::type_environment::env_is_empty(
                    env,
                ))
                &&& r.ok
            }),
            final(self).scope() == old(self).scope(),
        decreases matches,
    {
        let mut env = outer.clone();
        let mut path: Option<PathType> = None;
        let ghost scope = self.scope();
        let ghost notes = self.notes();
        let ghost inner = scope.with_outer(outer@);
        self.ambient_env.push(outer.clone());
        assert(self.scope().outer =~= inner.outer);
        let mut i: usize = 0;
        while i < matches.len()
            invariant
                i <= matches.len(),
                super::judgment::body_ready(matches@),
                self.scope() == inner,
                (option_path_view(path), env@, self.notes()) == super::judgment::judge_body(
                    inner,
                    matches@.take(i as int),
                    outer@,
                    notes,
                ),
            decreases matches.len() - i,
        {
            assert(matches@.take(i + 1).drop_last() =~= matches@.take(i as int));
            match &matches[i] {
                MatchStatement::Simple { pattern } => {
                    let r = self.check_path_pattern(pattern);
                    if path.is_none() {
                        path = Some(r.path);
                    }
                    match TypeEnvironment::meet(&self.schema, &env, &r.env) {
                        Ok(e) => {
                            env = e;
                        },
                        Err(msg) => {
                            let mut s = copy_text("EXISTS body: concatenation of contexts failed: ");
                            s.append(msg.as_str());
                            self.error(s);
                        },
                    }
                },
                MatchStatement::Optional { pattern } => {
                    let r = self.check_path_pattern(pattern);
                    if path.is_none() {
                        path = Some(r.path);
                    }
                    env = TypeEnvironment::outer_join(&self.schema, &env, &r.env);
                },
            }
            i = i + 1;
        }
        assert(matches@.take(i as int) =~= matches@);
        let ghost full = self.ambient_env@;
        assert(env_views(full) == inner.outer);
        assert(full.len() == scope.outer.len() + 1);
        let _ = self.ambient_env.pop();
        proof {
            assert(self.ambient_env@ == full.drop_last());
            assert(self.scope().outer =~= env_views(full).drop_last());
            assert(inner.outer.drop_last() =~= scope.outer);
        }
        let path = match path {
            Some(p) => p,
            None => PathType::Zero,
        };
        let mut r = TypecheckResult::new(path, env);
        r.empty = r.path.is_unsatisfiable() || r.env.is_empty();
        r
    }

    /// The shape and the bindings of a pattern.
    pub(crate) fn check_path_pattern(&mut self, node: &PathPattern) -> (r: TypecheckResult)
        requires
            super::judgment::pattern_ready(*node),
        ensures
            (r.shape(), final(self).notes()) == super::judgment::judge_pattern(
                old(self).scope(),
                *node,
                old(self).notes(),
            ),
            r.ok,
            !r.empty,
            final(self).scope() == old(self).scope(),
        decreases node,
    {
        match node {
            PathPattern::Node(desc) => {
                let t = self.refine_pattern_node(desc);
                let p = PathType::from_variable(&t, EdgeDir::Any);
                let env = create_context(desc, t);
                TypecheckResult::new(p, env)
            },
            PathPattern::EdgeRight(desc) => self.check_edge(EdgeDir::Right, desc),
            PathPattern::EdgeLeft(desc) => self.check_edge(EdgeDir::Left, desc),
            PathPattern::EdgeUndirected(desc) => self.check_edge(EdgeDir::Undirected, desc),
            PathPattern::EdgeAnyDirection(desc) => self.check_edge(EdgeDir::Any, desc),
            PathPattern::Concat(p1, p2) => {
                let r1 = self.check_path_pattern(p1);
                let r2 = self.check_path_pattern(p2);
                let cm = self.meet_bindings(&r1.env, &r2.env);
                let p = PathType::meet(&self.schema, &r1.path, &r2.path);
                TypecheckResult::new(p, cm)
            },
            PathPattern::Join(p1, p2) => {
                let r1 = self.check_path_pattern(p1);
                let r2 = self.check_path_pattern(p2);
                self.join_results(r1, r2)
            },
            PathPattern::Filter(pattern, expr) => {
                let r = self.check_path_pattern(pattern);
                let filter_env = self.filter_env(&r.env);
                let t = self.check_expr(expr, &filter_env);
                let m = SimpleType::meet(&t, &SimpleType::B);
                if m.is_empty() {
                    let mut s = copy_text("Filter expression has type ");
                    s.append(t.to_string().as_str());
                    s.append(", which is not a boolean");
                    self.warn(s);
                    TypecheckResult::new(PathType::Zero, r.env)
                } else {
                    r
                }
            },
            PathPattern::Union(p1, p2) => {
                let r1 = self.check_path_pattern(p1);
                let r2 = self.check_path_pattern(p2);
                let env = TypeEnvironment::union(&self.schema, &r1.env, &r2.env);
                TypecheckResult::new(PathType::union(r1.path, r2.path), env)
            },
            PathPattern::Selected { pattern, .. } => self.check_path_pattern(pattern),
            PathPattern::Named { var, pattern } => {
                let r = self.check_path_pattern(pattern);
                let mut env = r.env;
                env.set(var.as_str(), VariableType::Path);
                TypecheckResult::new(r.path, env)
            },
            PathPattern::Repeat { pattern, lb, ub } => {
                let r = self.check_path_pattern(pattern);
                let raw_lb = *lb as u64;
                let effective_lb: u64 = if !r.path.is_empty() {
                    if raw_lb > 3 {
                        3
                    } else {
                        raw_lb
                    }
                } else if ub.is_none() {
                    self.error(
                        copy_text(
                            "Unbounded repetition (`*`, `+`, `{n,}`) requires an inner pattern of length > 0; an inner that can match the empty path makes the repetition non-terminating.",
                        ),
                    );
                    raw_lb
                } else {
                    self.warn(copy_text("Repeat expression must have length > 0"));
                    raw_lb
                };
                let p = PathType::pow(&self.schema, &r.path, effective_lb);
                TypecheckResult::new(p, r.env.to_group())
            },
            PathPattern::Questioned(p) => {
                let r = self.check_path_pattern(p);
                if r.path.is_empty() {
                    self.warn(copy_text("Repeat expression must have length > 0"));
                }
                let p = PathType::pow(&self.schema, &r.path, 0);
                TypecheckResult::new(p, r.env.to_group())
            },
        }
    }

    /// The shape of an edge pattern.
    fn check_edge(&mut self, dir: EdgeDir, desc: &Option<Descriptor>) -> (r: TypecheckResult)
        ensures
            (r.shape(), final(self).notes()) == super::judgment::judge_edge(
                old(self).scope(),
                dir,
                *desc,
                old(self).notes(),
            ),
            r.ok,
            !r.empty,
            final(self).scope() == old(self).scope(),
    {
        let t = self.refine_pattern_edge(dir, desc);
        let p = PathType::from_variable(&t, dir);
        let env = create_context(desc, t);
        TypecheckResult::new(p, env)
    }

    /// What a predicate sees.
    fn filter_env(&self, env: &TypeEnvironment) -> (r: TypeEnvironment)
        ensures
            r@ == self.scope().filter_env(env@),
    {
        let n = self.ambient_env.len();
        if n == 0 {
            env.clone()
        } else {
            assert(self.scope().outer.last() == self.ambient_env@[n - 1]@);
            self.ambient_env[n - 1].overlay(env)
        }
    }

    /// The bindings of two patterns together.
    fn meet_bindings(&mut self, a: &TypeEnvironment, b: &TypeEnvironment) -> (r: TypeEnvironment)
        ensures
            (r@, final(self).notes()) == super::judgment::met_bindings(
                old(self).scope().schema,
                a@,
                b@,
                old(self).notes(),
            ),
            final(self).scope() == old(self).scope(),
    {
        match TypeEnvironment::meet(&self.schema, a, b) {
            Ok(env) => {
                self.warn_for_collapsed_bindings(&env, a, b);
                env
            },
            Err(e) => {
                let mut s = copy_text("Concatenation of contexts failed: ");
                s.append(e.as_str());
                self.error(s);
                let env = a.clone();
                self.warn_for_collapsed_bindings(&env, a, b);
                env
            },
        }
    }

    /// Two patterns whose rows are joined.
    pub(crate) fn join_results(&mut self, r1: TypecheckResult, r2: TypecheckResult) -> (r: TypecheckResult)
        ensures
            (r.shape(), final(self).notes()) == super::judgment::joined_shape(
                old(self).scope(),
                r1.shape(),
                r2.shape(),
                old(self).notes(),
            ),
            r.ok,
            !r.empty,
            final(self).scope() == old(self).scope(),
    {
        let cm = self.meet_bindings(&r1.env, &r2.env);
        let p = if r1.path.is_unsatisfiable() || r2.path.is_unsatisfiable() {
            PathType::Zero
        } else {
            r1.path
        };
        TypecheckResult::new(p, cm)
    }

    /// The type of a node pattern.
    fn refine_pattern_node(&mut self, desc: &Option<Descriptor>) -> (r: VariableType)
        ensures
            (r@, final(self).notes()) == super::judgment::node_type(
                old(self).scope(),
                *desc,
                old(self).notes(),
            ),
            final(self).scope() == old(self).scope(),
    {
        let dtype = descriptor_type_of(desc);
        self.assert_filters_drained(desc);
        let vt = VariableType::Node(dtype.clone());
        let refined = VariableType::refine(&self.schema, &vt);
        if let VariableType::Zero = refined {
            let text = diagnose_node_mismatch(&self.schema, &dtype);
            self.warn(text);
        }
        refined
    }

    /// The type of an edge pattern.
    fn refine_pattern_edge(&mut self, dir: EdgeDir, desc: &Option<Descriptor>) -> (r: VariableType)
        ensures
            (r@, final(self).notes()) == super::judgment::edge_type(
                old(self).scope(),
                dir,
                *desc,
                old(self).notes(),
            ),
            final(self).scope() == old(self).scope(),
    {
        let dtype = descriptor_type_of(desc);
        self.assert_filters_drained(desc);
        let refined = match dir {
            EdgeDir::Right => VariableType::refine(
                &self.schema,
                &VariableType::edge_directional(dtype.clone()),
            ),
            EdgeDir::Left => VariableType::refine(
                &self.schema,
                &VariableType::edge_directional(dtype.clone()),
            ),
            EdgeDir::Undirected => VariableType::refine(
                &self.schema,
                &VariableType::edge_non_directional(dtype.clone()),
            ),
            EdgeDir::Any => {
                let t_fwd = VariableType::refine(
                    &self.schema,
                    &VariableType::edge_directional(dtype.clone()),
                );
                let t_und = VariableType::refine(
                    &self.schema,
                    &VariableType::edge_non_directional(dtype.clone()),
                );
                VariableType::join(t_fwd, t_und)
            },
        };
        if let VariableType::Zero = refined {
            let text = diagnose_edge_mismatch(&self.schema, &dtype, dir);
            self.warn(text);
        }
        refined
    }

    /// Equalities in a descriptor should have become filters.
    fn assert_filters_drained(&mut self, desc: &Option<Descriptor>)
        ensures
            final(self).notes() == super::judgment::filters_notes(*desc, old(self).notes()),
            final(self).scope() == old(self).scope(),
    {
        if let Some(d) = desc {
            if d.value_filters.len() > 0 {
                let shown = match &d.var {
                    Some(v) => {
                        let mut s = copy_text("Some(");
                        s.append(quoted_text(v.as_str()).as_str());
                        s.append(")");
                        s
                    },
                    None => copy_text("None"),
                };
                self.error(leftover_filters_text(shown.as_str()));
            }
        }
    }

    /// Says of each variable whose type became empty why it did.
    pub(crate) fn warn_for_collapsed_bindings(
        &mut self,
        merged: &TypeEnvironment,
        left: &TypeEnvironment,
        right: &TypeEnvironment,
    )
        ensures
            final(self).notes() == super::judgment::collapse_notes(
                merged@,
                left@,
                right@,
                crate::fields::sorted_keys(merged@),
                old(self).notes(),
            ),
            final(self).scope() == old(self).scope(),
    {
        let n = merged.len();
        let ghost keys = crate::fields::sorted_keys(merged@);
        let mut i: usize = 0;
        while i < n
            invariant
                i <= n,
                n == merged.names().len(),
                keys == merged.names(),
                self.scope() == old(self).scope(),
                self.notes() == super::judgment::collapse_notes(
                    merged@,
                    left@,
                    right@,
                    keys.take(i as int),
                    old(self).notes(),
                ),
            decreases n - i,
        {
            assert(keys.take(i + 1).drop_last() =~= keys.take(i as int));
            let var = merged.name_at(i);
            let text = collapse_text(var, merged.type_at(i), left, right);
            assert(keys.take(i + 1).last() == var@);
            if let Some(s) = text {
                self.warn(s);
            }
            i = i + 1;
        }
        assert(keys.take(i as int) =~= keys);
    }
}

/// The value of an optional path type.
spec fn option_path_view(p: Option<PathType>) -> Option<super::path_type::PathTypeView> {
    match p {
        Some(p) => Some(p@),
        None => None,
    }
}

/// What is said of a variable whose type became empty.
fn collapse_text(
    var: &String,
    merged_t: &VariableType,
    left: &TypeEnvironment,
    right: &TypeEnvironment,
) -> (r: Option<String>)
    ensures
        forall|merged: Env|
            merged.contains_key(var@) && merged[var@] == merged_t@ ==> option_text(r)
                == #[trigger] super::judgment::collapse_note(merged, left@, right@, var@),
{
    if !merged_t.is_empty() {
        return None;
    }
    let l_t = left.get(var.as_str());
    let r_t = right.get(var.as_str());
    let l_was_empty = match l_t {
        Some(t) => t.is_empty(),
        None => false,
    };
    let r_was_empty = match r_t {
        Some(t) => t.is_empty(),
        None => false,
    };
    if l_was_empty || r_was_empty {
        return None;
    }
    let mut s = copy_text("variable ");
    s.append(var.as_str());
    match (l_t, r_t) {
        (Some(l), Some(r)) => {
            s.append(" cannot be both ");
            s.append(short_var_type(l).as_str());
            s.append(" and ");
            s.append(short_var_type(r).as_str());
            s.append(" under the active schema");
            Some(s)
        },
        (Some(l), None) => {
            s.append(" bound to ");
            s.append(short_var_type(l).as_str());
            s.append(" collapses to empty under the active schema");
            Some(s)
        },
        (None, Some(r)) => {
            s.append(" bound to ");
            s.append(short_var_type(r).as_str());
            s.append(" collapses to empty under the active schema");
            Some(s)
        },
        (None, None) => None,
    }
}

/// The value of an optional text.
spec fn option_text(t: Option<String>) -> Option<Seq<char>> {
    match t {
        Some(s) => Some(s@),
        None => None,
    }
}

} // verus!
