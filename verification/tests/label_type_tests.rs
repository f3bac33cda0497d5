use frogql::typing::label_type::LabelType;

#[test]
fn test_from_list_single() {
    assert_eq!(
        LabelType::from_list(&["Person".into()]),
        LabelType::Label("Person".into())
    );
}

#[test]
fn test_from_list_multi() {
    let lt = LabelType::from_list(&["Dummy".into(), "Person".into()]);
    assert_eq!(
        lt,
        LabelType::And(
            Box::new(LabelType::Label("Dummy".into())),
            Box::new(LabelType::Label("Person".into())),
        )
    );
}

#[test]
fn label_type_test_subtype_star() {
    assert!(LabelType::is_subtype(
        &LabelType::Star,
        &LabelType::Label("X".into())
    ));
    assert!(LabelType::is_subtype(
        &LabelType::Label("X".into()),
        &LabelType::Star
    ));
}

#[test]
fn test_subtype_and() {
    // A & B <: A
    let ab = LabelType::And(
        Box::new(LabelType::Label("A".into())),
        Box::new(LabelType::Label("B".into())),
    );
    assert!(LabelType::is_subtype(&ab, &LabelType::Label("A".into())));
    assert!(LabelType::is_subtype(&ab, &LabelType::Label("B".into())));
}

#[test]
fn test_subtype_label_eq() {
    assert!(LabelType::is_subtype(
        &LabelType::Label("X".into()),
        &LabelType::Label("X".into())
    ));
    assert!(!LabelType::is_subtype(
        &LabelType::Label("X".into()),
        &LabelType::Label("Y".into())
    ));
}

#[test]
fn the_empty_label_is_below_every_label() {
    let a = || LabelType::Label("A".into());
    assert!(LabelType::is_subtype(&LabelType::Empty, &a()));
    assert!(LabelType::is_subtype(&LabelType::Empty, &LabelType::Empty));
    assert!(LabelType::is_subtype(
        &LabelType::Empty,
        &LabelType::Neg(Box::new(a()))
    ));
    assert!(LabelType::is_subtype(
        &LabelType::Empty,
        &LabelType::And(Box::new(a()), Box::new(LabelType::Neg(Box::new(a()))))
    ));
    assert!(!LabelType::is_subtype(&a(), &LabelType::Empty));
}

#[test]
fn the_meet_of_conjunctions_demands_the_labels_of_both() {
    let all = |names: &[&str]| {
        let list: Vec<String> = names.iter().map(|s| s.to_string()).collect();
        LabelType::from_list(&list)
    };
    let (a, b) = (all(&["A", "B"]), all(&["B", "C"]));
    let m = LabelType::meet(&a, &b);
    assert!(LabelType::is_subtype(&m, &a));
    assert!(LabelType::is_subtype(&m, &b));
    assert!(LabelType::is_subtype(&all(&["C", "B", "A"]), &m));
    assert!(!LabelType::is_subtype(&a, &m));
    assert_eq!(LabelType::meet(&a, &all(&["A"])), a);
}
