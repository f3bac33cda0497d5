use frogql::fields::FieldMap;
use frogql::model::graph::MemoryGraphStore;
use frogql::model::value::{Props, Value};
use frogql::typing::descriptor_type::DescriptorType;
use frogql::typing::inference::{endpoint_label_combos, infer_simple_schema};
use frogql::typing::label_type::LabelType;
use frogql::typing::property_type::PropertyType;
use frogql::typing::simple_type::SimpleType;
use frogql::typing::validate::{
    validate_against_data, validate_edge_against_schema, validate_node_against_schema,
    ElementKind, MAX_SAMPLES,
};
use frogql::typing::variable_type::{Schema, VariableType};

fn props(pairs: Vec<(&str, Value)>) -> Props {
    let mut m = FieldMap::new();
    for (k, v) in pairs {
        m.insert(k.to_string(), v);
    }
    m
}

fn text(s: &str) -> Value {
    Value::Str(s.to_string())
}

fn add(g: &mut MemoryGraphStore, id: &str, label: &str, pairs: Vec<(&str, Value)>) -> u32 {
    g.push_node(
        id.to_string(),
        LabelType::Label(label.to_string()),
        props(pairs),
    )
}

#[test]
fn validate_passes_against_inferred_default() {
    let mut g = MemoryGraphStore::new();
    add(&mut g, "a", "Person", vec![("name", text("Ada")), ("age", Value::Int(30))]);
    add(&mut g, "b", "Person", vec![("name", text("Bob")), ("age", Value::Int(25))]);
    let schema = infer_simple_schema(&g);
    let report = validate_against_data(&g, &schema);
    assert!(report.ok(), "report = {report:?}");
    assert_eq!(report.nodes_checked, 2);
}

#[test]
fn validate_flags_missing_required_prop() {
    // Schema says Person is closed-record with name+age. One node lacks age.
    let mut g = MemoryGraphStore::new();
    add(&mut g, "a", "Person", vec![("name", text("Ada")), ("age", Value::Int(30))]);
    add(&mut g, "b", "Person", vec![("name", text("Bob"))]);
    let mut required = FieldMap::new();
    required.insert("name".to_string(), SimpleType::S);
    required.insert("age".to_string(), SimpleType::Z);
    let schema = Schema::from_parts(
        vec![VariableType::Node(DescriptorType::new(
            LabelType::Label("Person".into()),
            PropertyType::Closed(required),
        ))],
        vec![],
    );
    let report = validate_against_data(&g, &schema);
    assert_eq!(report.node_violations, 1);
    assert!(!report.ok());
}

#[test]
fn validate_flags_unknown_label() {
    let mut g = MemoryGraphStore::new();
    add(&mut g, "a", "Foo", vec![]);
    let schema = Schema::from_parts(
        vec![VariableType::Node(DescriptorType::new(
            LabelType::Label("Person".into()),
            PropertyType::open_empty(),
        ))],
        vec![],
    );
    let report = validate_against_data(&g, &schema);
    assert_eq!(report.node_violations, 1);
}

#[test]
fn validate_caps_samples() {
    // Build 50 violating nodes; only MAX_SAMPLES retained.
    let mut g = MemoryGraphStore::new();
    for i in 0..50 {
        add(&mut g, &format!("n{i}"), "Foo", vec![]);
    }
    let schema = Schema::from_parts(
        vec![VariableType::Node(DescriptorType::new(
            LabelType::Label("Bar".into()),
            PropertyType::open_empty(),
        ))],
        vec![],
    );
    let report = validate_against_data(&g, &schema);
    assert_eq!(report.node_violations, 50);
    let node_samples = report
        .samples
        .iter()
        .filter(|s| s.kind == ElementKind::Node)
        .count();
    assert_eq!(node_samples, MAX_SAMPLES);
}

#[test]
fn single_elements_are_validated() {
    let mut g = MemoryGraphStore::new();
    let a = add(&mut g, "a", "Person", vec![("name", text("Ann"))]);
    let b = add(&mut g, "b", "Person", vec![("name", text("Bob"))]);
    let e = g.push_edge(
        "e".to_string(),
        LabelType::Label("Knows".to_string()),
        props(vec![]),
        a,
        b,
        true,
    );
    let schema = infer_simple_schema(&g);
    let person = LabelType::Label("Person".to_string());
    assert!(validate_node_against_schema(&person, &props(vec![("name", text("C"))]), &schema).is_ok());
    let stranger = LabelType::Label("Robot".to_string());
    let message = validate_node_against_schema(&stranger, &props(vec![]), &schema).unwrap_err();
    assert!(message.contains("does not match any"), "{message}");
    assert!(validate_edge_against_schema(&g, e, &schema).is_ok());
    assert!(validate_edge_against_schema(&g, e, &Schema::from_parts(vec![], vec![])).is_err());
    let report = validate_against_data(&g, &Schema::from_parts(vec![], vec![]));
    assert_eq!(report.total_violations(), 3);
    assert_eq!(schema.fresh_caches().nodes().len(), schema.nodes().len());
}

#[test]
fn the_labels_at_ends_of_edges_are_listed_once() {
    let mut g = MemoryGraphStore::new();
    let a = add(&mut g, "a", "Person", vec![]);
    let b = add(&mut g, "b", "City", vec![]);
    let _ = add(&mut g, "c", "Robot", vec![]);
    for name in ["e", "f"] {
        g.push_edge(
            name.to_string(),
            LabelType::Label("In".to_string()),
            props(vec![]),
            a,
            b,
            true,
        );
    }
    let want = vec![vec!["City".to_string()], vec!["Person".to_string()]];
    assert_eq!(endpoint_label_combos(&g), want);
}
