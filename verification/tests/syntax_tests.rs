use frogql::syntax::descriptor::Descriptor;
use frogql::syntax::path_pattern::PathPattern;
use frogql::syntax::path_prefix::{PathMode, PathPrefix, PathSearch};
use frogql::syntax::query::{MatchStatement, Query};
use frogql::typing::descriptor_type::DescriptorType;
use frogql::typing::label_type::LabelType;
use frogql::typing::property_type::PropertyType;

fn node(name: &str) -> PathPattern {
    PathPattern::Node(Some(Descriptor::var_only(name)))
}

fn repeat(p: PathPattern, lb: usize, ub: Option<usize>) -> PathPattern {
    PathPattern::Repeat { pattern: Box::new(p), lb, ub }
}

fn walk() -> PathPrefix {
    PathPrefix { mode: PathMode::Walk, search: PathSearch::All }
}

#[test]
fn descriptors_hold_what_they_are_given() {
    let v = Descriptor::var_only("x");
    assert_eq!(v.var.as_deref(), Some("x"));
    assert!(v.value_filters.is_empty());
    let t = Descriptor::type_only(DescriptorType::new(
        LabelType::Label("Person".to_string()),
        PropertyType::open_empty(),
    ));
    assert!(t.var.is_none());
    let w = Descriptor::with_filters(Some("y".to_string()), DescriptorType::star(), vec![]);
    assert_eq!(w.var.as_deref(), Some("y"));
    assert!(w.value_preds.is_empty());
}

#[test]
fn only_unbounded_repetitions_have_lower_bounds() {
    let edge = PathPattern::EdgeRight(None);
    let p = PathPattern::Concat(
        Box::new(repeat(edge, 2, None)),
        Box::new(PathPattern::Union(
            Box::new(repeat(node("x"), 1, Some(3))),
            Box::new(repeat(repeat(node("y"), 5, None), 0, None)),
        )),
    );
    let lbs = p.unbounded_repeat_lbs();
    assert_eq!(lbs.len(), 3);
    assert!(lbs.contains(&2) && lbs.contains(&0) && lbs.contains(&5));
}

#[test]
fn a_prefix_is_trivial_where_it_restricts_nothing() {
    assert!(walk().is_trivial());
    let trail = PathPrefix { mode: PathMode::Trail, search: PathSearch::All };
    assert!(!trail.is_trivial());
    let any = PathPrefix { mode: PathMode::Walk, search: PathSearch::Any { count: 1 } };
    assert!(!any.is_trivial());
}

#[test]
fn clauses_are_joined_from_the_left() {
    let mut q = Query::pattern_only(node("a"));
    q.matches.push(MatchStatement::Simple { pattern: node("b") });
    q.matches.push(MatchStatement::Simple { pattern: node("c") });
    match q.collapsed_pattern() {
        PathPattern::Join(left, right) => {
            assert!(matches!(*left, PathPattern::Join(_, _)));
            assert!(matches!(*right, PathPattern::Node(Some(d)) if d.var.as_deref() == Some("c")));
        }
        _ => panic!("a join"),
    }
}

#[test]
fn a_selected_pattern_is_found_in_a_query() {
    let plain = Query::pattern_only(node("a"));
    assert!(!plain.has_any_selected());
    let selected = Query::pattern_only(PathPattern::Selected {
        prefix: walk(),
        pattern: Box::new(node("a")),
    });
    assert!(selected.has_any_selected());
    let mut optional = Query::pattern_only(node("a"));
    assert!(!optional.has_any_optional());
    optional.matches.push(MatchStatement::Optional { pattern: node("b") });
    assert!(optional.has_any_optional());
}

#[test]
fn a_single_label_has_a_name() {
    assert_eq!(LabelType::Label("A".to_string()).as_simple_label(), Some("A"));
    assert_eq!(LabelType::Star.as_simple_label(), None);
}
