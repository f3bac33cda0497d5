use frogql::fields::FieldMap;
use frogql::typing::simple_type::SimpleType;

#[test]
fn test_meet_same() {
    assert_eq!(
        SimpleType::meet(&SimpleType::Z, &SimpleType::Z),
        SimpleType::Z
    );
}

#[test]
fn test_meet_different() {
    assert_eq!(
        SimpleType::meet(&SimpleType::Z, &SimpleType::S),
        SimpleType::Zero
    );
}

#[test]
fn test_meet_star() {
    assert_eq!(
        SimpleType::meet(&SimpleType::Star, &SimpleType::Z),
        SimpleType::Z
    );
    assert_eq!(
        SimpleType::meet(&SimpleType::Z, &SimpleType::Star),
        SimpleType::Z
    );
}

#[test]
fn simple_type_test_subtype_star() {
    assert!(SimpleType::is_subtype(&SimpleType::Star, &SimpleType::Z));
    assert!(SimpleType::is_subtype(&SimpleType::Z, &SimpleType::Star));
}

#[test]
fn test_subtype_same() {
    assert!(SimpleType::is_subtype(&SimpleType::Z, &SimpleType::Z));
    assert!(!SimpleType::is_subtype(&SimpleType::Z, &SimpleType::S));
}

#[test]
fn test_union_with_zero() {
    assert_eq!(
        SimpleType::union(&SimpleType::Zero, &SimpleType::Z),
        SimpleType::Z
    );
    assert_eq!(
        SimpleType::union(&SimpleType::Z, &SimpleType::Zero),
        SimpleType::Z
    );
}

#[test]
fn test_is_empty() {
    assert!(SimpleType::Zero.is_empty());
    assert!(!SimpleType::Z.is_empty());
    let u = SimpleType::Union(Box::new(SimpleType::Zero), Box::new(SimpleType::Zero));
    assert!(u.is_empty());
}

#[test]
fn test_is_empty_atoms() {
    // Each non-bottom atom is non-empty.
    assert!(!SimpleType::F.is_empty());
    assert!(!SimpleType::B.is_empty());
    assert!(!SimpleType::S.is_empty());
    assert!(!SimpleType::Star.is_empty());
}

#[test]
fn test_is_empty_union_short_circuits() {
    // Union(a, b) iff both empty.
    let z = || SimpleType::Zero;
    let one = || SimpleType::Z;
    assert!(SimpleType::Union(Box::new(z()), Box::new(z())).is_empty());
    assert!(!SimpleType::Union(Box::new(z()), Box::new(one())).is_empty());
    assert!(!SimpleType::Union(Box::new(one()), Box::new(z())).is_empty());
}

#[test]
fn test_is_empty_group_and_list_propagate() {
    assert!(SimpleType::Group(Box::new(SimpleType::Zero)).is_empty());
    assert!(!SimpleType::Group(Box::new(SimpleType::Z)).is_empty());
    assert!(SimpleType::List(Box::new(SimpleType::Zero)).is_empty());
    assert!(!SimpleType::List(Box::new(SimpleType::Z)).is_empty());
}

#[test]
fn test_is_empty_record_uses_any_semantics() {
    // Record(fields) iff fields.values().any(is_empty) — different
    // from Union which uses AND.
    let m_with_zero = fields(&[("a", SimpleType::Z), ("b", SimpleType::Zero)]);
    assert!(
        SimpleType::Record(m_with_zero).is_empty(),
        "record with one Zero field should be empty (any-semantics)"
    );

    // Empty record (no fields) is not empty.
    assert!(!SimpleType::Record(FieldMap::new()).is_empty());
}

#[test]
fn test_union_collapses_equal_operands() {
    // Beyond test_union_with_zero — `union(X, X) = X`.
    assert_eq!(
        SimpleType::union(&SimpleType::Z, &SimpleType::Z),
        SimpleType::Z
    );
}

// meet on composite types — covariant recursion.

fn list(t: SimpleType) -> SimpleType {
    SimpleType::List(Box::new(t))
}
fn group(t: SimpleType) -> SimpleType {
    SimpleType::Group(Box::new(t))
}
fn fields(pairs: &[(&str, SimpleType)]) -> FieldMap<SimpleType> {
    let mut m = FieldMap::new();
    for (k, v) in pairs {
        m.insert((*k).to_string(), v.clone());
    }
    m
}
fn record(pairs: &[(&str, SimpleType)]) -> SimpleType {
    SimpleType::Record(fields(pairs))
}
fn union(a: SimpleType, b: SimpleType) -> SimpleType {
    SimpleType::Union(Box::new(a), Box::new(b))
}

#[test]
fn test_meet_list_same_inner() {
    assert_eq!(
        SimpleType::meet(&list(SimpleType::Z), &list(SimpleType::Z)),
        list(SimpleType::Z)
    );
}

#[test]
fn test_meet_list_covariant_with_union() {
    // meet(List[int], List[int|str]) = List[meet(int, int|str)] = List[int]
    let lhs = list(SimpleType::Z);
    let rhs = list(union(SimpleType::Z, SimpleType::S));
    assert_eq!(SimpleType::meet(&lhs, &rhs), list(SimpleType::Z));
}

#[test]
fn test_meet_list_incompatible_inner_propagates_zero() {
    // meet(List[int], List[str]) = List[Zero]. The List wrapper survives;
    // is_empty on the result is true (a list whose element type is
    // impossible is itself impossible).
    let result = SimpleType::meet(&list(SimpleType::Z), &list(SimpleType::S));
    assert_eq!(result, list(SimpleType::Zero));
    assert!(result.is_empty());
}

#[test]
fn test_meet_record_same_keys_recursive() {
    let lhs = record(&[("name", SimpleType::S), ("age", SimpleType::Z)]);
    let rhs = record(&[("name", SimpleType::S), ("age", SimpleType::Z)]);
    let expected = record(&[("name", SimpleType::S), ("age", SimpleType::Z)]);
    assert_eq!(SimpleType::meet(&lhs, &rhs), expected);
}

#[test]
fn test_meet_record_covariant_field() {
    // meet({age: int}, {age: int|str}) = {age: int}
    let lhs = record(&[("age", SimpleType::Z)]);
    let rhs = record(&[("age", union(SimpleType::Z, SimpleType::S))]);
    let expected = record(&[("age", SimpleType::Z)]);
    assert_eq!(SimpleType::meet(&lhs, &rhs), expected);
}

#[test]
fn test_meet_record_distinct_keys_is_zero() {
    let lhs = record(&[("a", SimpleType::Z)]);
    let rhs = record(&[("b", SimpleType::Z)]);
    assert_eq!(SimpleType::meet(&lhs, &rhs), SimpleType::Zero);
}

#[test]
fn test_meet_record_different_arity_is_zero() {
    let lhs = record(&[("a", SimpleType::Z)]);
    let rhs = record(&[("a", SimpleType::Z), ("b", SimpleType::Z)]);
    assert_eq!(SimpleType::meet(&lhs, &rhs), SimpleType::Zero);
}

#[test]
fn test_meet_record_incompatible_field_propagates() {
    // meet({a: int}, {a: str}) = {a: Zero}. Record survives, is_empty true.
    let lhs = record(&[("a", SimpleType::Z)]);
    let rhs = record(&[("a", SimpleType::S)]);
    let result = SimpleType::meet(&lhs, &rhs);
    assert_eq!(result, record(&[("a", SimpleType::Zero)]));
    assert!(result.is_empty());
}

#[test]
fn test_meet_group_covariant() {
    // Group is the moral equivalent of List for repetition grouping;
    // same recursive treatment.
    let lhs = group(SimpleType::Z);
    let rhs = group(union(SimpleType::Z, SimpleType::S));
    assert_eq!(SimpleType::meet(&lhs, &rhs), group(SimpleType::Z));
}

#[test]
fn test_meet_nested_list_of_records() {
    // meet(List[{a: int}], List[{a: int|str}]) = List[{a: int}]
    let lhs = list(record(&[("a", SimpleType::Z)]));
    let rhs = list(record(&[("a", union(SimpleType::Z, SimpleType::S))]));
    let expected = list(record(&[("a", SimpleType::Z)]));
    assert_eq!(SimpleType::meet(&lhs, &rhs), expected);
}

#[test]
fn a_firm_type_shares_values_with_its_supertypes() {
    let firm = [
        SimpleType::Z,
        list(union(SimpleType::Z, SimpleType::S)),
        record(&[("a", SimpleType::Z), ("b", list(SimpleType::B))]),
    ];
    let wider = [
        union(SimpleType::S, SimpleType::Z),
        list(SimpleType::Star),
        record(&[("a", SimpleType::Star), ("b", list(SimpleType::B))]),
    ];
    for (t, w) in firm.iter().zip(wider.iter()) {
        assert!(!t.is_empty());
        assert!(SimpleType::is_subtype(t, w));
        assert!(!SimpleType::meet(t, w).is_empty());
        assert!(!SimpleType::meet(w, t).is_empty());
    }
}
