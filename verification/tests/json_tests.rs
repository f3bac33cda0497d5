use frogql::fields::FieldMap;
use frogql::model::graph::MemoryGraphStore;
use frogql::model::value::{Props, Value};
use frogql::store::graph_store::{GraphStore, ImportError};
use frogql::store::json::{
    dump_to_json_value, read_json_value, value_to_json, Json, JsonError, ShapeError,
};
use frogql::store::json_text::{parse_json, TextError};
use frogql::typing::inference::labels_to_label_type;

fn text(s: &str) -> Json {
    Json::Text(s.to_string())
}

fn object(members: Vec<(&str, Json)>) -> Json {
    let mut m = FieldMap::new();
    for (k, v) in members {
        m.insert(k.to_string(), v);
    }
    Json::Object(m)
}

fn node(id: &str, labels: Vec<&str>, props: Vec<(&str, Json)>) -> Json {
    object(vec![
        ("id", text(id)),
        ("labels", Json::Array(labels.into_iter().map(text).collect())),
        ("props", object(props)),
    ])
}

fn edge(id: &str, ends: Vec<&str>, direction: &str) -> Json {
    object(vec![
        ("id", text(id)),
        ("labels", Json::Array(vec![text("Knows")])),
        ("props", object(vec![])),
        ("endpoints", Json::Array(ends.into_iter().map(text).collect())),
        ("directionality", text(direction)),
    ])
}

fn document(nodes: Vec<Json>, edges: Vec<Json>) -> Json {
    object(vec![("nodes", Json::Array(nodes)), ("edges", Json::Array(edges))])
}

fn show(j: &Json) -> String {
    match j {
        Json::Null => "null".to_string(),
        Json::Bool(b) => format!("{b}"),
        Json::Int(n) => format!("{n}"),
        Json::Float(bits) => format!("{:?}", f64::from_bits(*bits)),
        Json::Text(s) => format!("{s:?}"),
        Json::Array(v) => {
            let parts: Vec<String> = v.iter().map(show).collect();
            format!("[{}]", parts.join(","))
        }
        Json::Object(m) => {
            let mut parts = Vec::new();
            for i in 0..m.len() {
                parts.push(format!("{:?}:{}", m.key_at(i), show(m.value_at(i))));
            }
            format!("{{{}}}", parts.join(","))
        }
    }
}

fn props(items: Vec<(&str, Value)>) -> Props {
    let mut m = FieldMap::new();
    for (k, v) in items {
        m.insert(k.to_string(), v);
    }
    m
}

fn names(v: Vec<&str>) -> Vec<String> {
    v.into_iter().map(|s| s.to_string()).collect()
}

fn people() -> MemoryGraphStore {
    let mut g = MemoryGraphStore::new();
    let a = g.push_node(
        "a".to_string(),
        labels_to_label_type(&names(vec!["Person", "Admin"])),
        props(vec![("age", Value::Int(30)), ("name", Value::Str("Ann".to_string()))]),
    );
    let b = g.push_node(
        "b".to_string(),
        labels_to_label_type(&names(vec!["Person"])),
        props(vec![("ok", Value::Bool(true)), ("none", Value::Null)]),
    );
    g.push_edge(
        "u".to_string(),
        labels_to_label_type(&names(vec!["Near"])),
        props(vec![]),
        b,
        a,
        false,
    );
    g.push_edge(
        "d".to_string(),
        labels_to_label_type(&names(vec!["Knows"])),
        props(vec![("since", Value::Int(-1))]),
        a,
        b,
        true,
    );
    g
}

#[test]
fn a_graph_is_exported_with_directed_edges_first() {
    let doc = dump_to_json_value(&people());
    assert_eq!(
        show(&doc),
        concat_all(&[
            r#"{"edges":[{"directionality":"->","endpoints":["a","b"],"id":"d","labels":["Knows"],"props":{"since":-1}},"#,
            r#"{"directionality":"~~","endpoints":["b","a"],"id":"u","labels":["Near"],"props":{}}],"#,
            r#""nodes":[{"id":"a","labels":["Person","Admin"],"props":{"age":30,"name":"Ann"}},"#,
            r#"{"id":"b","labels":["Person"],"props":{"none":null,"ok":true}}]}"#,
        ])
    );
}

fn concat_all(parts: &[&str]) -> String {
    parts.join("")
}

#[test]
fn values_that_no_document_holds_are_null() {
    assert_eq!(show(&value_to_json(&Value::Float(f64::NAN.to_bits()))), "null");
    assert_eq!(show(&value_to_json(&Value::Float(f64::INFINITY.to_bits()))), "null");
    assert_eq!(show(&value_to_json(&Value::Float((-2.5f64).to_bits()))), "-2.5");
    assert_eq!(show(&value_to_json(&Value::Node(3))), "null");
    assert_eq!(show(&value_to_json(&Value::Path(vec![]))), "null");
    let nested = Value::List(vec![
        Value::Int(1),
        Value::Record(props(vec![("b", Value::Null), ("a", Value::Bool(false))])),
    ]);
    assert_eq!(show(&value_to_json(&nested)), r#"[1,{"a":false,"b":null}]"#);
}

#[test]
fn an_exported_graph_is_imported_again() {
    let doc = dump_to_json_value(&people());
    let s = match GraphStore::from_json_value(&doc) {
        Ok(s) => s,
        Err(_) => panic!("a readable document"),
    };
    assert_eq!(s.pager.header.node_count, 2);
    assert_eq!(s.pager.header.edge_count, 2);
    assert_eq!(s.all_node_user_ids(), &names(vec!["a", "b"]));
    assert_eq!(s.all_directed_edge_user_ids(), names(vec!["d"]));
    assert_eq!(s.all_undirected_edge_user_ids(), names(vec!["u"]));
    let (src, tgt) = s.edge_endpoints_user_ids("u").unwrap();
    assert_eq!((src.as_str(), tgt.as_str()), ("b", "a"));
    assert!(s.is_edge_directed("d"));
    assert!(!s.is_edge_directed("u"));
    let p = s.props_by_user_id("a").unwrap();
    assert!(p.get("age").unwrap().equals(&Value::Int(30)));
    assert!(p.get("name").unwrap().equals(&Value::Str("Ann".to_string())));
    let q = s.props_by_user_id("b").unwrap();
    assert!(q.get("ok").unwrap().equals(&Value::Bool(true)));
    assert!(q.get("none").is_none());
    assert_eq!(s.nodes_with_label("Admin").unwrap(), names(vec!["a"]));
}

#[test]
fn lists_and_objects_are_no_properties() {
    let doc = document(
        vec![node(
            "a",
            vec![],
            vec![("l", Json::Array(vec![Json::Int(1)])), ("o", object(vec![])), ("x", Json::Int(2))],
        )],
        vec![],
    );
    match read_json_value(&doc) {
        Ok((nodes, edges)) => {
            assert_eq!(edges.len(), 0);
            assert_eq!(nodes.len(), 1);
            assert_eq!(nodes[0].props.len(), 1);
            assert!(nodes[0].props.get("x").unwrap().equals(&Value::Int(2)));
        }
        Err(_) => panic!("a readable document"),
    }
}

#[test]
fn a_document_without_lists_is_refused() {
    let none = object(vec![]);
    assert!(matches!(GraphStore::from_json_value(&none), Err(JsonError::MissingNodes)));
    let half = object(vec![("nodes", Json::Array(vec![]))]);
    assert!(matches!(GraphStore::from_json_value(&half), Err(JsonError::MissingEdges)));
    assert_eq!(ShapeError::MissingNodes.message(), "missing nodes");
    assert_eq!(ShapeError::MissingEdges.message(), "missing edges");
}

#[test]
fn an_edge_with_an_unknown_end_is_refused() {
    let doc = document(vec![node("a", vec![], vec![])], vec![edge("e", vec!["z", "a"], "->")]);
    match GraphStore::from_json_value(&doc) {
        Err(JsonError::Import(ImportError::UnknownSource(s))) => assert_eq!(s, "z"),
        _ => panic!("an unknown source"),
    }
    let doc = document(vec![node("a", vec![], vec![])], vec![edge("e", vec!["a", "y"], "->")]);
    match GraphStore::from_json_value(&doc) {
        Err(JsonError::Import(ImportError::UnknownTarget(s))) => assert_eq!(s, "y"),
        _ => panic!("an unknown target"),
    }
}

#[test]
fn malformed_elements_are_named_by_their_place() {
    let doc = document(vec![node("a", vec![], vec![]), Json::Null], vec![]);
    assert!(matches!(read_json_value(&doc), Err(ShapeError::BadNode(1))));
    let doc = document(
        vec![node("a", vec![], vec![("x", Json::Float(0.5f64.to_bits()))])],
        vec![],
    );
    assert!(matches!(read_json_value(&doc), Err(ShapeError::BadNode(0))));
    let doc = document(
        vec![node("a", vec![], vec![])],
        vec![edge("e", vec!["a", "a"], "~~"), edge("f", vec!["a"], "->")],
    );
    assert!(matches!(read_json_value(&doc), Err(ShapeError::BadEdge(1))));
    assert_eq!(ShapeError::BadNode(1).message(), "malformed node");
    assert_eq!(ShapeError::BadEdge(1).message(), "malformed edge");
}

#[test]
fn any_direction_but_the_arrow_is_none() {
    let doc = document(
        vec![node("a", vec![], vec![])],
        vec![edge("e", vec!["a", "a"], "~~"), edge("f", vec!["a", "a"], "->")],
    );
    match read_json_value(&doc) {
        Ok((_, edges)) => {
            assert!(!edges[0].directed);
            assert!(edges[1].directed);
        }
        Err(_) => panic!("a readable document"),
    }
}

#[test]
fn a_text_is_parsed() {
    let j = parse_json(r#" {"b": [1, -2.5, null], "a": "xA", "c": {"d": true}} "#).unwrap();
    assert_eq!(show(&j), r#"{"a":"xA","b":[1,-2.5,null],"c":{"d":true}}"#);
    let big = parse_json("18446744073709551615").unwrap();
    assert!(matches!(big, Json::Float(bits) if bits == 18446744073709551615f64.to_bits()));
    let twice = parse_json(r#"{"k":1,"k":2}"#).unwrap();
    assert_eq!(show(&twice), r#"{"k":2}"#);
}

#[test]
fn a_text_that_is_no_document_is_refused() {
    match parse_json("{]") {
        Err(m) => assert_eq!(m, "key must be a string at line 1 column 2"),
        Ok(_) => panic!("no document"),
    }
    match GraphStore::from_json_text("") {
        Err(TextError::Syntax(m)) => {
            assert_eq!(m, "EOF while parsing a value at line 1 column 0")
        }
        _ => panic!("no document"),
    }
}

#[test]
fn a_text_is_imported() {
    let s = match GraphStore::from_json_text(
        r#"{"nodes":[{"id":"a","labels":["P"],"props":{"n":1}},{"id":"b","labels":[],"props":{}}],
            "edges":[{"id":"e","labels":["K"],"props":{},"endpoints":["a","b"],"directionality":"->"}]}"#,
    ) {
        Ok(s) => s,
        Err(_) => panic!("a readable text"),
    };
    assert_eq!(s.outgoing_edges("a"), names(vec!["e"]));
    assert_eq!(s.incoming_edges("b"), names(vec!["e"]));
    assert!(s.props_by_user_id("a").unwrap().get("n").unwrap().equals(&Value::Int(1)));
}

#[test]
fn a_text_with_a_malformed_element_is_refused() {
    assert!(matches!(
        GraphStore::from_json_text(r#"{"nodes":[{"id":1,"labels":[],"props":{}}],"edges":[]}"#),
        Err(TextError::Malformed(ShapeError::BadNode(0)))
    ));
    assert!(matches!(
        GraphStore::from_json_text(r#"{"nodes":[],"edges":[{}]}"#),
        Err(TextError::Malformed(ShapeError::BadEdge(0)))
    ));
    assert!(matches!(
        GraphStore::from_json_text(r#"{"edges":[]}"#),
        Err(TextError::Import(JsonError::MissingNodes))
    ));
    assert!(matches!(
        GraphStore::from_json_text(r#"{"nodes":[]}"#),
        Err(TextError::Import(JsonError::MissingEdges))
    ));
}
