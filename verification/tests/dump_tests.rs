use frogql::fields::FieldMap;
use frogql::model::graph::MemoryGraphStore;
use frogql::model::value::{Props, Value};
use frogql::store::dump::{dump_to_gql_pieces, pick_dump_id_prop, Piece};
use frogql::store::graph_store::{EdgeRecord, GraphStore, ImportError, NodeRecord};
use frogql::store::io::save_graph;
use frogql::store::pager::{Pager, StoreError};
use frogql::typing::descriptor_type::DescriptorType;
use frogql::typing::format::{format_schema, name_from_labels, NodeTypeNames};
use frogql::typing::label_type::LabelType;
use frogql::typing::property_type::PropertyType;
use frogql::typing::simple_type::SimpleType;
use frogql::typing::variable_type::{Schema, VariableType};

fn props(pairs: Vec<(&str, Value)>) -> Props {
    let mut m = FieldMap::new();
    for (k, v) in pairs {
        m.insert(k.to_string(), v);
    }
    m
}

fn label(s: &str) -> LabelType {
    LabelType::Label(s.to_string())
}

fn script(g: &MemoryGraphStore) -> String {
    let mut out = String::new();
    for p in dump_to_gql_pieces(g).unwrap() {
        match p {
            Piece::Text(s) => out.push_str(&s),
            Piece::Float(bits) => out.push_str(&format!("{:?}", f64::from_bits(bits))),
        }
    }
    out
}

#[test]
fn a_graph_is_written_as_statements() {
    let mut g = MemoryGraphStore::new();
    g.push_node(
        "a".into(),
        label("Person"),
        props(vec![
            ("name", Value::Str("Ada".into())),
            ("score", Value::Float(1.5f64.to_bits())),
        ]),
    );
    g.push_node("b".into(), label("Person"), props(vec![]));
    g.push_edge("e".into(), label("KNOWS"), props(vec![]), 0, 1, true);
    let s = script(&g);
    assert!(s.starts_with("-- froGQL dump (.dump-gql)\n-- nodes ----\n"));
    assert!(s.contains("name: 'Ada'"), "{s}");
    assert!(s.contains("score: 1.5"), "{s}");
    assert!(s.contains(":KNOWS"), "{s}");
    assert_eq!(s.matches("INSERT").count(), 3, "{s}");
    assert!(s.contains("REMOVE"), "{s}");
}

#[test]
fn a_string_with_a_quote_cannot_be_dumped() {
    let mut g = MemoryGraphStore::new();
    g.push_node(
        "a".into(),
        label("P"),
        props(vec![("name", Value::Str("O'Hara\n".into()))]),
    );
    let e = dump_to_gql_pieces(&g).unwrap_err();
    assert!(
        e.ends_with(r#"(value: "O'Hara\n")"#),
        "the value is quoted and escaped: {e}"
    );
}

#[test]
fn names_of_node_types_are_lower_case_words() {
    assert_eq!(
        name_from_labels(&label("Ärzte-Haus 7")),
        Some("ärzte_haus_7".to_string())
    );
    assert_eq!(name_from_labels(&LabelType::Star), None);
}

#[test]
fn a_schema_is_printed_with_its_names() {
    let person = || {
        VariableType::Node(DescriptorType::new(
            label("Person"),
            PropertyType::open_empty(),
        ))
    };
    let knows = VariableType::EdgeDirectional {
        desc: DescriptorType::new(label("KNOWS"), PropertyType::open_empty()),
        left: Box::new(person()),
        right: Box::new(person()),
    };
    let s = format_schema(&Schema::from_parts(vec![person()], vec![knows]));
    assert!(s.starts_with("Node types:\n"), "{s}");
    assert!(s.contains("\nEdge types:\n"), "{s}");
    assert!(s.contains("person"), "{s}");
    assert_eq!(
        format_schema(&Schema::from_parts(vec![], vec![])),
        "(empty schema)\n"
    );
}

fn node_record(id: &str) -> NodeRecord {
    NodeRecord {
        id: id.to_string(),
        labels: vec!["N".to_string()],
        props: props(vec![]),
    }
}

fn edge_record(id: &str, src: &str, tgt: &str) -> EdgeRecord {
    EdgeRecord {
        id: id.to_string(),
        labels: vec!["E".to_string()],
        props: props(vec![]),
        src: src.to_string(),
        tgt: tgt.to_string(),
        directed: true,
    }
}

#[test]
fn records_are_imported() {
    let nodes = vec![node_record("a"), node_record("b")];
    let s = GraphStore::from_records(&nodes, &vec![edge_record("e", "a", "b")])
        .ok()
        .unwrap();
    assert_eq!(s.all_node_user_ids(), &vec!["a", "b"]);
    assert_eq!(s.edge_src_user_id("e").unwrap(), "a");
    assert_eq!(s.outgoing_edges("a"), vec!["e"]);
    assert_eq!(s.incoming_edges("b"), vec!["e"]);
}

#[test]
fn edges_between_unknown_nodes_are_refused() {
    let nodes = vec![node_record("a")];
    match GraphStore::from_records(&nodes, &vec![edge_record("e", "x", "a")]) {
        Err(ImportError::UnknownSource(s)) => assert_eq!(s, "x"),
        _ => panic!("the source is unknown"),
    }
    match GraphStore::from_records(&nodes, &vec![edge_record("e", "a", "y")]) {
        Err(ImportError::UnknownTarget(s)) => assert_eq!(s, "y"),
        _ => panic!("the target is unknown"),
    }
}

#[test]
fn a_record_larger_than_a_page_is_refused() {
    let mut g = MemoryGraphStore::new();
    let many: Vec<Value> = (0..1000).map(Value::Int).collect();
    g.push_node("n".into(), label("A"), props(vec![("v", Value::List(many))]));
    let mut pager = Pager::create();
    assert_eq!(save_graph(&g, &mut pager), Err(StoreError::CellTooLarge));
}

#[test]
fn only_a_conjunction_of_labels_gives_a_name() {
    let and = |a, b| LabelType::And(Box::new(a), Box::new(b));
    assert_eq!(
        name_from_labels(&and(label("Copiloto"), label("Persona"))),
        Some("copiloto_persona".to_string())
    );
    let or = LabelType::Or(Box::new(label("B")), Box::new(label("C")));
    assert_eq!(name_from_labels(&and(label("A"), or)), None);
    assert_eq!(
        name_from_labels(&LabelType::Neg(Box::new(label("A")))),
        None
    );
}

#[test]
fn names_of_node_types_are_numbered_until_they_differ() {
    let of = |l: &str, field: &str| {
        let mut m = FieldMap::new();
        if !field.is_empty() {
            m.insert(field.to_string(), SimpleType::Z);
        }
        DescriptorType::new(label(l), PropertyType::Closed(m))
    };
    let types = [of("A", "x"), of("A", "y"), of("A_2", ""), of("A", "z")];
    let schema = Schema::from_parts(
        types.iter().map(|d| VariableType::Node(d.clone())).collect(),
        vec![],
    );
    let names = NodeTypeNames::of(&schema);
    let got: Vec<&str> = types.iter().map(|d| names.get(d).unwrap()).collect();
    assert_eq!(got[0], "a");
    for i in 0..got.len() {
        for j in 0..i {
            assert_ne!(got[i], got[j]);
        }
    }
    assert_eq!(names.get(&of("B", "")), None);
}

#[test]
fn the_temporary_property_has_an_unused_name() {
    let with = |used: Vec<String>| {
        let mut g = MemoryGraphStore::new();
        g.push_node(
            "n".into(),
            label("P"),
            props(used.iter().map(|s| (s.as_str(), Value::Int(1))).collect()),
        );
        pick_dump_id_prop(&g)
    };
    assert_eq!(with(vec![]), "_dump_id");
    assert_eq!(with(vec!["_dump_id".to_string()]), "__dump_id_v1");
    assert_eq!(with(vec!["__dump_id_v1".to_string()]), "_dump_id");
    let mut many = vec!["_dump_id".to_string()];
    for i in 1..100 {
        many.push(format!("__dump_id_v{i}"));
    }
    assert_eq!(with(many), "__dump_id_v100");
}

#[test]
fn the_first_unknown_end_is_named() {
    let nodes = vec![node_record("a")];
    let edges = vec![
        edge_record("e", "a", "a"),
        edge_record("f", "x", "y"),
        edge_record("g", "z", "a"),
    ];
    match GraphStore::from_records(&nodes, &edges) {
        Err(ImportError::UnknownSource(s)) => assert_eq!(s, "x"),
        _ => panic!("the source of the second edge is unknown"),
    }
    let edges = vec![edge_record("e", "a", "y"), edge_record("f", "x", "a")];
    match GraphStore::from_records(&nodes, &edges) {
        Err(ImportError::UnknownTarget(s)) => assert_eq!(s, "y"),
        _ => panic!("the target of the first edge is unknown"),
    }
}

#[test]
fn no_records_are_a_graph_too() {
    let s = GraphStore::from_records(&vec![], &vec![]).ok().unwrap();
    assert!(s.all_node_user_ids().is_empty());
    assert_eq!(s.pager.header.string_table_root, 1);
    assert_eq!(s.pager.header.node_count, 0);
}
