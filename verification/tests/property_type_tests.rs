use frogql::fields::FieldMap;
use frogql::typing::property_type::PropertyType;
use frogql::typing::simple_type::SimpleType;

fn fields(pairs: &[(&str, SimpleType)]) -> FieldMap<SimpleType> {
    let mut m = FieldMap::new();
    for (k, v) in pairs {
        m.insert((*k).to_string(), v.clone());
    }
    m
}
fn closed(pairs: &[(&str, SimpleType)]) -> PropertyType {
    PropertyType::Closed(fields(pairs))
}
fn open(pairs: &[(&str, SimpleType)]) -> PropertyType {
    PropertyType::Open(fields(pairs))
}

// is_empty — quirk: empty record is NOT empty, but a non-empty
// record with any empty field IS.
#[test]
fn property_type_test_zero_is_empty() {
    assert!(PropertyType::Zero.is_empty());
}
#[test]
fn test_empty_record_is_not_empty() {
    // `!m.is_empty() && m.values().any(...)`. Empty maps
    // fail the first conjunct, so are NOT empty.
    assert!(!PropertyType::open_empty().is_empty());
    assert!(!PropertyType::closed_empty().is_empty());
}
#[test]
fn test_record_with_empty_field_is_empty() {
    let r_open = open(&[("a", SimpleType::Zero)]);
    let r_closed = closed(&[("a", SimpleType::Zero)]);
    assert!(r_open.is_empty());
    assert!(r_closed.is_empty());
}
#[test]
fn test_record_with_only_full_fields_is_not_empty() {
    let r_open = open(&[("a", SimpleType::Z)]);
    let r_closed = closed(&[("a", SimpleType::Z)]);
    assert!(!r_open.is_empty());
    assert!(!r_closed.is_empty());
}

// meet — record preservation + Zero handling.
#[test]
fn test_meet_same_closed_returns_same() {
    let r = closed(&[("a", SimpleType::Z)]);
    assert_eq!(PropertyType::meet(&r, &r), r);
}
#[test]
fn test_meet_different_closed_keys_yields_zero() {
    // The meet treats records-with-different-keys as incompatible.
    let r1 = closed(&[("a", SimpleType::Z)]);
    let r2 = closed(&[("b", SimpleType::Z)]);
    assert_eq!(PropertyType::meet(&r1, &r2), PropertyType::Zero);
}

// ----- subtyping -----

#[test]
fn test_subtype_zero_is_bottom() {
    let any = open(&[("a", SimpleType::Z)]);
    assert!(PropertyType::is_subtype(&PropertyType::Zero, &any));
}

#[test]
fn test_subtype_open_open_constrains_only_shared_keys() {
    // Open <: Open ignores keys not present in both.
    let m1 = open(&[("a", SimpleType::Z), ("b", SimpleType::S)]);
    let m2 = open(&[("a", SimpleType::Z), ("c", SimpleType::B)]);
    assert!(PropertyType::is_subtype(&m1, &m2));
    assert!(PropertyType::is_subtype(&m2, &m1));
}

#[test]
fn test_subtype_open_open_fails_on_shared_key_mismatch() {
    let m1 = open(&[("a", SimpleType::Z)]);
    let m2 = open(&[("a", SimpleType::S)]); // same key, incompatible type
    assert!(!PropertyType::is_subtype(&m1, &m2));
}

#[test]
fn test_subtype_closed_closed_requires_equal_keysets() {
    let m1 = closed(&[("a", SimpleType::Z)]);
    let m2 = closed(&[("a", SimpleType::Z), ("b", SimpleType::S)]);
    assert!(!PropertyType::is_subtype(&m1, &m2));
    assert!(!PropertyType::is_subtype(&m2, &m1));
}

#[test]
fn test_subtype_closed_under_open_requires_open_keys_subset_of_closed() {
    // Closed <: Open: every key of Open must exist in Closed (and types match).
    let m_closed = closed(&[("a", SimpleType::Z), ("b", SimpleType::S)]);
    let m_open_sub = open(&[("a", SimpleType::Z)]);
    assert!(PropertyType::is_subtype(&m_closed, &m_open_sub));
    let m_open_extra = open(&[("a", SimpleType::Z), ("c", SimpleType::B)]);
    assert!(!PropertyType::is_subtype(&m_closed, &m_open_extra));
}

#[test]
fn test_subtype_open_under_closed_requires_open_keys_subset_of_closed() {
    let m_closed = closed(&[("a", SimpleType::Z), ("b", SimpleType::S)]);
    let m_open_sub = open(&[("a", SimpleType::Z)]);
    assert!(PropertyType::is_subtype(&m_open_sub, &m_closed));
    let m_open_extra = open(&[("a", SimpleType::Z), ("c", SimpleType::B)]);
    assert!(!PropertyType::is_subtype(&m_open_extra, &m_closed));
}

// ----- meet -----

#[test]
fn test_meet_open_open_unions_keys_pointwise() {
    let m1 = open(&[("a", SimpleType::Z)]);
    let m2 = open(&[("b", SimpleType::S)]);
    let met = PropertyType::meet(&m1, &m2);
    let expected = open(&[("a", SimpleType::Z), ("b", SimpleType::S)]);
    assert_eq!(met, expected);
}

#[test]
fn test_meet_open_open_meets_shared_simple_types() {
    // Shared key with compatible types meets to their SimpleType meet.
    let m1 = open(&[("a", SimpleType::Z)]);
    let m2 = open(&[("a", SimpleType::Z)]);
    assert_eq!(PropertyType::meet(&m1, &m2), m1);
}

#[test]
fn test_meet_open_closed_subset_yields_closed() {
    let m_open = open(&[("a", SimpleType::Z)]);
    let m_closed = closed(&[("a", SimpleType::Z), ("b", SimpleType::S)]);
    let met = PropertyType::meet(&m_open, &m_closed);
    assert_eq!(met, m_closed);
}

#[test]
fn test_meet_open_closed_extra_keys_yields_zero() {
    let m_open = open(&[("a", SimpleType::Z), ("c", SimpleType::B)]);
    let m_closed = closed(&[("a", SimpleType::Z), ("b", SimpleType::S)]);
    assert_eq!(PropertyType::meet(&m_open, &m_closed), PropertyType::Zero);
}

#[test]
fn test_meet_closed_open_symmetric_with_open_closed() {
    let m_open = open(&[("a", SimpleType::Z)]);
    let m_closed = closed(&[("a", SimpleType::Z), ("b", SimpleType::S)]);
    assert_eq!(
        PropertyType::meet(&m_open, &m_closed),
        PropertyType::meet(&m_closed, &m_open),
    );
}

#[test]
fn a_closed_record_shares_values_with_its_supertypes() {
    let t = closed(&[("a", SimpleType::Z), ("b", SimpleType::S)]);
    for w in [
        open(&[]),
        open(&[("a", SimpleType::Z)]),
        closed(&[("a", SimpleType::Star), ("b", SimpleType::S)]),
    ] {
        assert!(PropertyType::is_subtype(&t, &w));
        assert!(!PropertyType::meet(&t, &w).is_empty());
    }
    let apart = open(&[("a", SimpleType::S)]);
    assert!(!PropertyType::is_subtype(&t, &apart));
    assert!(PropertyType::meet(&t, &apart).is_empty());
}
