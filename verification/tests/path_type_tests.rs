use frogql::fields::FieldMap;
use frogql::typing::descriptor_type::DescriptorType;
use frogql::typing::label_type::LabelType;
use frogql::typing::path_summary::PathSummary;
use frogql::typing::path_type::PathType;
use frogql::typing::property_type::PropertyType;
use frogql::typing::simple_type::SimpleType;
use frogql::typing::variable_type::{Schema, VariableType};

// is_unsatisfiable — bottom check for paths.
#[test]
fn test_zero_is_unsatisfiable() {
    assert!(PathType::Zero.is_unsatisfiable());
}
#[test]
fn test_node_unsat_iff_descriptor_empty() {
    let empty_d = DescriptorType::new(LabelType::Star, PropertyType::Zero);
    assert!(PathType::node(empty_d).is_unsatisfiable());
    assert!(!PathType::node(DescriptorType::star()).is_unsatisfiable());
}
#[test]
fn test_union_unsat_iff_both_unsat() {
    // Different from `is_empty` (which uses OR for length min) —
    // `is_unsatisfiable` uses AND for Union.
    let n = || PathType::node(DescriptorType::star());
    assert!(
        PathType::Union(Box::new(PathType::Zero), Box::new(PathType::Zero)).is_unsatisfiable()
    );
    assert!(!PathType::Union(Box::new(PathType::Zero), Box::new(n())).is_unsatisfiable());
    assert!(!PathType::Union(Box::new(n()), Box::new(PathType::Zero)).is_unsatisfiable());
}

// union — Zero is identity for join.
#[test]
fn test_union_drops_left_zero() {
    let n = PathType::node(DescriptorType::star());
    assert_eq!(PathType::union(PathType::Zero, n.clone()), n);
}
#[test]
fn test_union_drops_right_zero() {
    let n = PathType::node(DescriptorType::star());
    assert_eq!(PathType::union(n.clone(), PathType::Zero), n);
}

// What two paths share is summarized as what their summaries share.
#[test]
fn a_summary_of_a_meet_is_the_meet_of_the_summaries() {
    let of = |l: &str| {
        PathType::node(DescriptorType::new(
            LabelType::Label(l.to_string()),
            PropertyType::open_empty(),
        ))
    };
    let schema = Schema::star();
    let p = PathType::union(of("A"), of("B"));
    let q = PathType::node(DescriptorType::star());
    let direct = PathSummary::summarize(&PathType::meet(&schema, &p, &q));
    let parts = PathSummary::meet(
        &schema,
        &PathSummary::summarize(&p),
        &PathSummary::summarize(&q),
    );
    assert!(direct.same(&parts));
    assert!(!direct.is_unsatisfiable());
}

// Under closed records the law holds of shapes that share nothing, too.
#[test]
fn a_summary_of_a_meet_that_is_nothing_is_nothing() {
    let record = |t: SimpleType| {
        let mut m = FieldMap::new();
        m.insert("a".to_string(), t);
        m
    };
    let of = |t: SimpleType| {
        PathType::node(DescriptorType::new(
            LabelType::Star,
            PropertyType::Open(record(t)),
        ))
    };
    let schema = Schema::from_parts(
        vec![VariableType::Node(DescriptorType::new(
            LabelType::Label("N".to_string()),
            PropertyType::Closed(record(SimpleType::Z)),
        ))],
        vec![],
    );
    for (left, right, none) in [
        (SimpleType::Z, SimpleType::Z, false),
        (SimpleType::Z, SimpleType::S, true),
        (SimpleType::S, SimpleType::S, true),
    ] {
        let p = of(left);
        let q = of(right);
        let direct = PathSummary::summarize(&PathType::meet(&schema, &p, &q));
        let parts = PathSummary::meet(
            &schema,
            &PathSummary::summarize(&p),
            &PathSummary::summarize(&q),
        );
        assert!(direct.same(&parts));
        assert_eq!(direct.is_unsatisfiable(), none);
    }
}
