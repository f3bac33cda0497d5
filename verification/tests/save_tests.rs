use frogql::fields::FieldMap;
use frogql::model::graph::MemoryGraphStore;
use frogql::model::graph_access::{edge_path_value, GraphAccess};
use frogql::model::value::PathValue;
use frogql::store::catalog_io::{read_catalog, save_catalog};
use frogql::store::disk::DiskGraphStore;
use frogql::store::graph_store::{EdgeRecord, GraphStore, NodeRecord};
use frogql::store::io::{load_graph, save_graph};
use frogql::store::names::NamedStep;
use frogql::store::pager::Pager;
use frogql::store::save_all::save_graph_with_catalog_and_indexes;
use frogql::store::secondary_index_io::read_specs;
use frogql::typing::inference::labels_to_label_type;

fn graph() -> MemoryGraphStore {
    let mut g = MemoryGraphStore::new();
    g.push_node(
        "a".to_string(),
        labels_to_label_type(&vec!["Person".to_string()]),
        FieldMap::new(),
    );
    g
}

#[test]
fn a_graph_is_saved_with_its_catalog_and_its_indexes() {
    let mut p = Pager::create();
    let catalog: Vec<u8> = (0..10000u32).map(|i| (i % 251) as u8).collect();
    let specs: Vec<u8> = vec![1, 2, 3];
    let r = save_graph_with_catalog_and_indexes(&graph(), &catalog, Some(&specs), &mut p);
    assert!(r.is_ok());
    assert_eq!(read_catalog(&p, p.header.catalog_root).unwrap(), catalog);
    assert_eq!(read_specs(&p, p.header.secondary_index_root).unwrap(), specs);
    let g = load_graph(&p).unwrap();
    assert_eq!(g.nodes(), vec![0]);
    assert_eq!(g.node_name(0), "a");
}

#[test]
fn a_graph_without_indexes_has_no_root_for_them() {
    let mut p = Pager::create();
    let catalog: Vec<u8> = Vec::new();
    let r = save_graph_with_catalog_and_indexes(&graph(), &catalog, None, &mut p);
    assert!(r.is_ok());
    assert_eq!(p.header.secondary_index_root, 0);
    assert_eq!(read_catalog(&p, p.header.catalog_root).unwrap(), catalog);
}

#[test]
fn a_catalog_is_replaced() {
    let mut p = Pager::create();
    save_catalog(&mut p, &vec![1, 2, 3]).unwrap();
    let first = p.header.catalog_root;
    assert_eq!(read_catalog(&p, first).unwrap(), vec![1, 2, 3]);
    save_catalog(&mut p, &vec![4]).unwrap();
    assert_eq!(p.header.catalog_root, first);
    assert_eq!(read_catalog(&p, p.header.catalog_root).unwrap(), vec![4]);
}

#[test]
fn a_store_is_there_again_when_its_file_is_opened() {
    let nodes = vec![
        NodeRecord { id: "a".to_string(), labels: vec!["P".to_string()], props: FieldMap::new() },
        NodeRecord { id: "b".to_string(), labels: vec![], props: FieldMap::new() },
    ];
    let edges = vec![EdgeRecord {
        id: "e".to_string(),
        labels: vec!["K".to_string()],
        props: FieldMap::new(),
        src: "a".to_string(),
        tgt: "b".to_string(),
        directed: false,
    }];
    let s = match GraphStore::from_records(&nodes, &edges) {
        Ok(s) => s,
        Err(_) => panic!("records that can be stored"),
    };
    let again = GraphStore::open(s.pager).unwrap();
    assert_eq!(again.all_node_user_ids(), &vec!["a".to_string(), "b".to_string()]);
    assert_eq!(again.undirected_edges_of("b"), vec!["e".to_string()]);
    assert!(matches!(again.edge_path_value("e"), NamedStep::EdgeUndirectional(n) if n == "e"));
    assert_eq!(again.nodes_with_label("P").unwrap(), vec!["a".to_string()]);
}

#[test]
fn a_saved_graph_is_found_by_its_indexes() {
    let mut g = graph();
    g.push_node("b".to_string(), labels_to_label_type(&vec![]), FieldMap::new());
    g.push_edge(
        "e".to_string(),
        labels_to_label_type(&vec!["K".to_string()]),
        FieldMap::new(),
        0,
        1,
        true,
    );
    let mut p = Pager::create();
    save_graph(&g, &mut p).unwrap();
    let d = DiskGraphStore::open(p).unwrap();
    assert_eq!(d.nodes_with_label("Person").unwrap(), vec!["a".to_string()]);
    assert!(d.nodes_with_label("Robot").is_none());
    assert_eq!(d.directed_edges_with_label("K").unwrap(), vec!["e".to_string()]);
    assert!(d.undirected_edges_with_label("K").unwrap().is_empty());
    assert_eq!(d.outgoing_edges("a"), vec!["e".to_string()]);
    assert_eq!(d.incoming_edges("b"), vec!["e".to_string()]);
    assert!(d.outgoing_edges("b").is_empty());
    assert!(matches!(d.edge_path_value("e"), NamedStep::EdgeDirectional(n) if n == "e"));
    assert_eq!(edge_path_value(&g, 0), PathValue::EdgeDirectional(0));
}
