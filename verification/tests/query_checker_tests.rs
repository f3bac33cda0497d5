use frogql::fields::FieldMap;
use frogql::model::value::Value;
use frogql::syntax::descriptor::Descriptor;
use frogql::syntax::expr::{BinOp, Expr};
use frogql::syntax::path_pattern::PathPattern;
use frogql::syntax::path_prefix::{PathMode, PathPrefix, PathSearch};
use frogql::syntax::query::{
    Aggregator, MatchStatement, Query, ReturnItem, SortDir, SortKey, SortSpec,
};
use frogql::typing::checker::Typechecker;
use frogql::typing::descriptor_type::DescriptorType;
use frogql::typing::label_type::LabelType;
use frogql::typing::property_type::PropertyType;
use frogql::typing::simple_type::SimpleType;
use frogql::typing::variable_type::{Schema, VariableType};

/// How floating-point numbers are printed.
fn shown(bits: u64) -> String {
    format!("{}", f64::from_bits(bits))
}

fn desc(label: &str, fields: &[(&str, SimpleType)]) -> DescriptorType {
    let mut m = FieldMap::new();
    for (k, v) in fields {
        m.insert(k.to_string(), v.clone());
    }
    DescriptorType::new(LabelType::Label(label.to_string()), PropertyType::Closed(m))
}

/// Persons with a name and an age, who know each other.
fn schema() -> Schema {
    let person = || {
        VariableType::Node(desc(
            "Person",
            &[("age", SimpleType::Z), ("name", SimpleType::S)],
        ))
    };
    let knows = VariableType::EdgeDirectional {
        desc: desc("KNOWS", &[("since", SimpleType::Z)]),
        left: Box::new(person()),
        right: Box::new(person()),
    };
    Schema::from_parts(vec![person()], vec![knows])
}

fn element(var: &str, label: &str) -> Option<Descriptor> {
    Some(Descriptor::new(
        Some(var.to_string()),
        DescriptorType::new(
            LabelType::Label(label.to_string()),
            PropertyType::open_empty(),
        ),
    ))
}

fn node(var: &str, label: &str) -> PathPattern {
    PathPattern::Node(element(var, label))
}

fn attr(var: &str, name: &str) -> Expr {
    Expr::AttrLookup {
        var: var.to_string(),
        attr: name.to_string(),
    }
}

fn returning(pattern: PathPattern, items: Vec<ReturnItem>) -> Query {
    Query {
        matches: vec![MatchStatement::Simple { pattern }],
        group_by: None,
        returns: Some(items),
        distinct: false,
        order_by: None,
        limit: None,
    }
}

fn item(expr: Expr) -> ReturnItem {
    ReturnItem::Expr { expr, alias: None }
}

fn count_star() -> ReturnItem {
    ReturnItem::Aggregate {
        agg: Aggregator::CountStar,
        alias: None,
    }
}

#[test]
fn a_well_typed_query_is_accepted() {
    let knows = PathPattern::Concat(
        Box::new(PathPattern::Concat(
            Box::new(node("a", "Person")),
            Box::new(PathPattern::EdgeRight(element("k", "KNOWS"))),
        )),
        Box::new(node("b", "Person")),
    );
    let q = returning(knows, vec![item(attr("a", "name")), item(attr("k", "since"))]);
    let mut tc = Typechecker::new(schema());
    let r = tc.check_query(&q, &shown);
    assert!(r.ok, "{:?}", tc.errors);
    assert!(!r.empty);
    assert!(tc.warnings.is_empty(), "{:?}", tc.warnings);
    let names: Vec<String> = r.env.keys().into_iter().cloned().collect();
    assert_eq!(names, vec!["a", "b", "k"]);
}

#[test]
fn an_unknown_variable_is_an_error() {
    let q = returning(node("a", "Person"), vec![item(attr("b", "name"))]);
    let mut tc = Typechecker::new(schema());
    let r = tc.check_query(&q, &shown);
    assert!(!r.ok);
    assert_eq!(tc.errors, vec!["Variable b not found in context"]);
}

#[test]
fn a_label_that_the_schema_lacks_makes_the_query_empty() {
    let q = returning(node("a", "Robot"), vec![item(Expr::Var("a".to_string()))]);
    let mut tc = Typechecker::new(schema());
    let r = tc.check_query(&q, &shown);
    assert!(r.empty);
    // Without a schema anything may match.
    let mut free = Typechecker::untyped();
    assert!(!free.check_query(&q, &shown).empty);
}

#[test]
fn comparing_unlike_types_is_reported() {
    let cond = Expr::Binop {
        op: BinOp::Add,
        left: Box::new(attr("a", "name")),
        right: Box::new(Expr::Const(Value::Int(1))),
    };
    let q = returning(node("a", "Person"), vec![item(cond)]);
    let mut tc = Typechecker::new(schema());
    tc.check_query(&q, &shown);
    let said: Vec<&String> = tc.errors.iter().chain(tc.warnings.iter()).collect();
    assert_eq!(said.len(), 1);
    assert!(said[0].contains("between types"), "{}", said[0]);
}

#[test]
fn aggregates_and_plain_items_need_a_grouping() {
    let q = returning(
        node("a", "Person"),
        vec![item(attr("a", "name")), count_star()],
    );
    let mut tc = Typechecker::new(schema());
    assert!(!tc.check_query(&q, &shown).ok);
    assert!(tc.errors[0].contains("no GROUP BY clause"));

    let mut grouped = returning(
        node("a", "Person"),
        vec![item(attr("a", "name")), count_star()],
    );
    grouped.group_by = Some(vec![attr("a", "name")]);
    let mut tc = Typechecker::new(schema());
    assert!(tc.check_query(&grouped, &shown).ok, "{:?}", tc.errors);

    let mut other = returning(
        node("a", "Person"),
        vec![item(attr("a", "age")), count_star()],
    );
    other.group_by = Some(vec![attr("a", "name")]);
    let mut tc = Typechecker::new(schema());
    assert!(!tc.check_query(&other, &shown).ok);
    assert!(tc.errors[0].contains("not functionally determined"));
}

fn sorted_by(key: SortKey) -> Query {
    let mut q = returning(node("a", "Person"), vec![item(attr("a", "age"))]);
    q.order_by = Some(vec![SortSpec {
        key,
        dir: SortDir::Asc,
        nulls: None,
    }]);
    q
}

#[test]
fn sort_keys_are_comparable_and_in_range() {
    let mut tc = Typechecker::new(schema());
    assert!(tc.check_query(&sorted_by(SortKey::Column(0)), &shown).ok);

    let mut tc = Typechecker::new(schema());
    assert!(!tc.check_query(&sorted_by(SortKey::Column(3)), &shown).ok);
    assert!(tc.errors[0].contains("column reference #3 is out of bounds"));

    let mut tc = Typechecker::new(schema());
    let node_key = sorted_by(SortKey::Expr(Expr::Var("a".to_string())));
    assert!(!tc.check_query(&node_key, &shown).ok);
    assert!(tc.errors[0].contains("not a comparable value type"));
}

fn repeated(ub: Option<usize>) -> PathPattern {
    let step = PathPattern::Concat(
        Box::new(PathPattern::Node(None)),
        Box::new(PathPattern::Concat(
            Box::new(PathPattern::EdgeRight(None)),
            Box::new(PathPattern::Node(None)),
        )),
    );
    PathPattern::Repeat {
        pattern: Box::new(step),
        lb: 1,
        ub,
    }
}

#[test]
fn unbounded_repetition_needs_a_restriction() {
    let all = |p| returning(p, vec![count_star()]);
    let mut tc = Typechecker::untyped();
    assert!(tc.check_query(&all(repeated(Some(3))), &shown).ok, "{:?}", tc.errors);

    let mut tc = Typechecker::untyped();
    assert!(!tc.check_query(&all(repeated(None)), &shown).ok);
    assert!(tc.errors[0].contains("Unbounded repetition"));

    let trail = PathPattern::Selected {
        prefix: PathPrefix {
            mode: PathMode::Trail,
            search: PathSearch::All,
        },
        pattern: Box::new(repeated(None)),
    };
    let mut tc = Typechecker::untyped();
    assert!(tc.check_query(&all(trail), &shown).ok, "{:?}", tc.errors);
}

#[test]
fn an_optional_match_may_bind_null() {
    let mut q = returning(node("a", "Person"), vec![item(Expr::Var("b".to_string()))]);
    q.matches.push(MatchStatement::Optional {
        pattern: node("b", "Person"),
    });
    let mut tc = Typechecker::new(schema());
    let r = tc.check_query(&q, &shown);
    assert!(r.ok, "{:?}", tc.errors);
    assert!(matches!(
        r.env.get("b"),
        Some(VariableType::Union(_, b)) if **b == VariableType::Null
    ));
}

#[test]
fn expressions_are_written_out() {
    let e = Expr::Binop {
        op: BinOp::Eq,
        left: Box::new(attr("a", "name")),
        right: Box::new(Expr::Const(Value::Str("x".to_string()))),
    };
    let s = e.to_string(&shown);
    assert!(s.contains("a.name"), "{s}");
    assert!(s.contains('='), "{s}");
    assert!(!e.contains_agg());
    assert!(Expr::Agg(Box::new(Aggregator::CountStar)).contains_agg());
    assert_eq!(BinOp::from_str("<="), Ok(BinOp::Le));
    assert!(BinOp::from_str("<=>").is_err());
    assert!(Expr::value_is_type(&Value::Int(1), &SimpleType::Z));
    assert!(!Expr::value_is_type(&Value::Int(1), &SimpleType::S));
}

#[test]
fn a_comprehension_over_no_list_is_warned_of() {
    let over = Expr::ListComprehension {
        var: "x".to_string(),
        source: Box::new(Expr::Const(Value::Int(1))),
        filter: None,
        body: Box::new(Expr::Var("x".to_string())),
    };
    let q = returning(node("a", "Person"), vec![item(over)]);
    let mut tc = Typechecker::untyped();
    let r = tc.check_query(&q, &shown);
    assert!(r.ok, "{:?}", tc.errors);
    assert_eq!(
        tc.warnings,
        vec!["list comprehension source has non-list type int"]
    );
}

#[test]
fn checking_again_gives_the_same() {
    let cond = Expr::Binop {
        op: BinOp::Add,
        left: Box::new(attr("a", "name")),
        right: Box::new(Expr::Const(Value::Int(1))),
    };
    let q = returning(node("a", "Person"), vec![item(cond)]);
    let mut tc = Typechecker::new(schema());
    let first = tc.check_query(&q, &shown);
    let said = (tc.errors.clone(), tc.warnings.clone());
    let again = tc.check_query(&q, &shown);
    assert_eq!(first.path, again.path);
    assert_eq!(first.env, again.env);
    assert_eq!(first.empty, again.empty);
    assert_eq!((tc.errors, tc.warnings), said);
}

#[test]
fn floats_are_written_as_they_are_shown() {
    let float = |x: f64| Value::Float(x.to_bits());
    assert_eq!(float(2.5).to_string(&shown), "2.5");
    let list = Value::List(vec![float(-0.25), Value::Int(3), Value::Null]);
    assert_eq!(list.to_string(&shown), "[-0.25, 3, null]");
    let e = Expr::Binop {
        op: BinOp::Lt,
        left: Box::new(attr("a", "age")),
        right: Box::new(Expr::Const(float(2.5))),
    };
    assert_eq!(e.to_string(&shown), "(a.age < 2.5)");
    assert_eq!(e.to_string(&|_: u64| "x".to_string()), "(a.age < x)");
    let filtered = PathPattern::Filter(Box::new(PathPattern::Node(None)), e);
    let q = returning(filtered, vec![item(Expr::Const(float(1.5)))]);
    assert_eq!(
        q.to_string(&shown),
        "MATCH () WHERE (a.age < 2.5) RETURN 1.5"
    );
}

#[test]
fn what_is_found_prints_floats_as_they_are_shown() {
    let sum = Expr::Binop {
        op: BinOp::Add,
        left: Box::new(attr("a", "age")),
        right: Box::new(Expr::Const(Value::Float(2.5f64.to_bits()))),
    };
    let mut q = returning(node("a", "Person"), vec![item(sum), count_star()]);
    q.group_by = Some(vec![attr("a", "name")]);
    let mut tc = Typechecker::new(schema());
    assert!(!tc.check_query(&q, &shown).ok);
    assert!(
        tc.errors
            .iter()
            .any(|e| e.contains("RETURN item `(a.age + 2.5)` is not functionally determined")),
        "{:?}",
        tc.errors
    );
}
