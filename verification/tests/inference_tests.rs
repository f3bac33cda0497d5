use frogql::fields::FieldMap;
use frogql::model::graph::MemoryGraphStore;
use frogql::model::value::{Props, Value};
use frogql::typing::inference::infer_simple_schema;
use frogql::typing::label_type::LabelType;
use frogql::typing::property_type::PropertyType;
use frogql::typing::simple_type::SimpleType;
use frogql::typing::variable_type::VariableType;

fn props(pairs: Vec<(&str, Value)>) -> Props {
    let mut m = FieldMap::new();
    for (k, v) in pairs {
        m.insert(k.to_string(), v);
    }
    m
}

fn text(s: &str) -> Value {
    Value::Str(s.to_string())
}

fn add(g: &mut MemoryGraphStore, id: &str, label: &str, pairs: Vec<(&str, Value)>) -> u32 {
    g.push_node(
        id.to_string(),
        LabelType::Label(label.to_string()),
        props(pairs),
    )
}

#[test]
fn infer_atomic_props() {
    let mut g = MemoryGraphStore::new();
    add(&mut g, "a", "Person", vec![("name", text("Ada")), ("age", Value::Int(30))]);
    add(&mut g, "b", "Person", vec![("name", text("Bob")), ("age", Value::Int(25))]);
    let s = infer_simple_schema(&g);
    assert_eq!(s.nodes().len(), 1);
    match &s.nodes()[0] {
        VariableType::Node(d) => {
            assert!(matches!(&d.label, LabelType::Label(l) if l == "Person"));
            match &d.props {
                PropertyType::Closed(m) => {
                    assert_eq!(m.get("name"), Some(&SimpleType::S));
                    assert_eq!(m.get("age"), Some(&SimpleType::Z));
                }
                _ => panic!("expected closed record, got {:?}", d.props),
            }
        }
        _ => panic!("expected Node variant"),
    }
}

#[test]
fn infer_optional_props_open_record() {
    let mut g = MemoryGraphStore::new();
    add(&mut g, "a", "Person", vec![("name", text("Ada")), ("age", Value::Int(30))]);
    add(&mut g, "b", "Person", vec![("name", text("Bob"))]);
    let s = infer_simple_schema(&g);
    match &s.nodes()[0] {
        VariableType::Node(d) => match &d.props {
            PropertyType::Open(m) => {
                assert_eq!(m.get("name"), Some(&SimpleType::S));
                assert!(!m.contains_key("age"));
            }
            _ => panic!("expected open record (some instance had extra props)"),
        },
        _ => panic!("expected Node variant"),
    }
}

#[test]
fn infer_list_element_type() {
    let mut g = MemoryGraphStore::new();
    add(&mut g, "a", "Post", vec![("tags", Value::List(vec![text("x"), text("y")]))]);
    add(&mut g, "b", "Post", vec![("tags", Value::List(vec![text("z")]))]);
    let s = infer_simple_schema(&g);
    match &s.nodes()[0] {
        VariableType::Node(d) => {
            let t = d.props.get("tags");
            assert_eq!(t, SimpleType::List(Box::new(SimpleType::S)));
        }
        _ => panic!("expected Node"),
    }
}

#[test]
fn infer_nested_list() {
    let mut g = MemoryGraphStore::new();
    let row = |a, b| Value::List(vec![Value::Int(a), Value::Int(b)]);
    add(&mut g, "m", "Mat", vec![("matrix", Value::List(vec![row(1, 2), row(3, 4)]))]);
    let s = infer_simple_schema(&g);
    match &s.nodes()[0] {
        VariableType::Node(d) => {
            let t = d.props.get("matrix");
            assert_eq!(
                t,
                SimpleType::List(Box::new(SimpleType::List(Box::new(SimpleType::Z))))
            );
        }
        _ => panic!("expected Node"),
    }
}

#[test]
fn infer_edge_with_endpoints() {
    let mut g = MemoryGraphStore::new();
    let a = add(&mut g, "a", "Person", vec![("name", text("Ada"))]);
    let b = add(&mut g, "b", "Post", vec![("title", text("Hi"))]);
    g.push_edge(
        "e1".to_string(),
        LabelType::Label("WROTE".to_string()),
        props(vec![]),
        a,
        b,
        true,
    );
    let s = infer_simple_schema(&g);
    assert_eq!(s.edges().len(), 1);
    match &s.edges()[0] {
        VariableType::EdgeDirectional { desc, left, right } => {
            assert!(matches!(&desc.label, LabelType::Label(l) if l == "WROTE"));
            match left.as_ref() {
                VariableType::Node(d) => {
                    assert!(matches!(&d.label, LabelType::Label(l) if l == "Person"))
                }
                _ => panic!("left endpoint should be Node"),
            }
            match right.as_ref() {
                VariableType::Node(d) => {
                    assert!(matches!(&d.label, LabelType::Label(l) if l == "Post"))
                }
                _ => panic!("right endpoint should be Node"),
            }
        }
        _ => panic!("expected directed edge"),
    }
}
