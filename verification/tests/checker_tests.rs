use frogql::fields::FieldMap;
use frogql::typing::diagnosis::is_orderable_per_iso_22_14;
use frogql::typing::simple_type::SimpleType;

#[test]
fn scalars_and_star_are_orderable() {
    for t in [
        SimpleType::Z,
        SimpleType::F,
        SimpleType::B,
        SimpleType::S,
        SimpleType::Star,
    ] {
        assert!(
            is_orderable_per_iso_22_14(&t),
            "{t:?} should be orderable per §22.14"
        );
    }
}

#[test]
fn zero_is_not_orderable() {
    // Zero typically comes from a strict-schema lookup of an undeclared
    // attribute, or from a contradictory constraint. Either way the sort key
    // cannot meaningfully order rows.
    assert!(!is_orderable_per_iso_22_14(&SimpleType::Zero));
}

#[test]
fn lists_and_records_are_not_orderable_without_ga04() {
    assert!(!is_orderable_per_iso_22_14(&SimpleType::List(Box::new(
        SimpleType::Z
    ))));
    let mut fields = FieldMap::new();
    fields.insert("k".into(), SimpleType::S);
    assert!(!is_orderable_per_iso_22_14(&SimpleType::Record(fields)));
    assert!(!is_orderable_per_iso_22_14(&SimpleType::Group(Box::new(
        SimpleType::Z
    ))));
}

#[test]
fn union_orderable_iff_both_sides_orderable() {
    // int|str: both scalar, so orderable.
    let int_or_str = SimpleType::Union(Box::new(SimpleType::Z), Box::new(SimpleType::S));
    assert!(is_orderable_per_iso_22_14(&int_or_str));

    // int|list rejects.
    let int_or_list = SimpleType::Union(
        Box::new(SimpleType::Z),
        Box::new(SimpleType::List(Box::new(SimpleType::Z))),
    );
    assert!(!is_orderable_per_iso_22_14(&int_or_list));
}
