use frogql::fields::FieldMap;
use frogql::model::graph::MemoryGraphStore;
use frogql::model::graph_access::GraphAccess;
use frogql::model::value::{Props, Value};
use frogql::store::disk::DiskGraphStore;
use frogql::store::graph_store::GraphStore;
use frogql::store::io::{load_graph, save_graph};
use frogql::store::key_map::Bound;
use frogql::store::catalog_io::read_catalog;
use frogql::store::lazy::LazyGraphStore;
use frogql::store::pager::{Pager, StoreError};
use frogql::store::secondary_index::IndexKind;
use frogql::store::secondary_index_io::DeclaredSpec;
use frogql::typing::label_type::LabelType;

fn props(pairs: Vec<(&str, Value)>) -> Props {
    let mut m = FieldMap::new();
    for (k, v) in pairs {
        m.insert(k.to_string(), v);
    }
    m
}

fn text(s: &str) -> Value {
    Value::Str(s.to_string())
}

fn label(s: &str) -> LabelType {
    LabelType::Label(s.to_string())
}

/// Three accounts and a person; transfers a1 -> a2 -> a3 and a friendship.
fn graph() -> MemoryGraphStore {
    let mut g = MemoryGraphStore::new();
    let owner = |s: &str| props(vec![("owner", text(s))]);
    g.push_node("a1".into(), label("Account"), owner("Ada"));
    g.push_node("a2".into(), label("Account"), owner("Bob"));
    g.push_node(
        "a3".into(),
        LabelType::And(Box::new(label("Account")), Box::new(label("Closed"))),
        owner("Cleo"),
    );
    g.push_node("p".into(), label("Person"), props(vec![]));
    let amount = |n: i64| props(vec![("amount", Value::Int(n))]);
    g.push_edge("t1".into(), label("Transfer"), amount(5), 0, 1, true);
    g.push_edge("t2".into(), label("Transfer"), amount(7), 1, 2, true);
    g.push_edge("f".into(), label("Friend"), props(vec![]), 0, 3, false);
    g
}

fn file() -> Pager {
    let mut pager = Pager::create();
    save_graph(&graph(), &mut pager).unwrap();
    pager
}

fn lazy() -> LazyGraphStore {
    LazyGraphStore::open(file()).unwrap()
}

#[test]
fn a_saved_graph_is_loaded_back() {
    let g = load_graph(&file()).unwrap();
    let want = graph();
    assert_eq!(g.node_names, want.node_names);
    assert_eq!(g.node_labels, want.node_labels);
    assert_eq!(g.node_props, want.node_props);
    assert_eq!(g.edge_names, want.edge_names);
    assert_eq!(g.edge_labels, want.edge_labels);
    assert_eq!(g.edge_props, want.edge_props);
    assert_eq!(g.edge_src, want.edge_src);
    assert_eq!(g.edge_tgt, want.edge_tgt);
    assert_eq!(g.edge_directed, want.edge_directed);
}

#[test]
fn an_opened_file_answers_as_its_graph() {
    let s = lazy();
    assert_eq!(s.nodes(), vec![0, 1, 2, 3]);
    assert_eq!(s.edges_directed(), vec![0, 1]);
    assert_eq!(s.edges_undirected(), vec![2]);
    assert_eq!(s.node_labels(0), label("Account"));
    assert_eq!(s.node_props(1), props(vec![("owner", text("Bob"))]));
    assert_eq!(s.edge_props(1), props(vec![("amount", Value::Int(7))]));
    assert_eq!((s.src(1), s.tgt(1)), (1, 2));
    assert!(!s.is_directed(2));
    assert_eq!((s.node_count(), s.edge_count()), (4, 3));
    assert_eq!(s.nodes_with_label("Account"), Some(vec![0, 1, 2]));
    assert_eq!(s.nodes_with_label("Closed"), Some(vec![2]));
    assert_eq!(s.nodes_with_label("Ghost"), None);
    assert_eq!(s.directed_edges_with_label("Transfer"), Some(vec![0, 1]));
    assert_eq!(s.undirected_edges_with_label("Friend"), Some(vec![2]));
    assert_eq!(s.outgoing_edges(1), vec![1]);
    assert_eq!(s.incoming_edges(1), vec![0]);
    assert_eq!(s.undirected_edges_of(3), vec![2]);
}

#[test]
fn inferred_indexes_answer_until_nodes_change() {
    let mut s = LazyGraphStore::open_with_indexes(file(), true).unwrap();
    assert_eq!(
        s.lookup_node_eq("Account", "owner", &text("Bob")),
        Some(vec![1])
    );
    assert_eq!(
        s.lookup_node_range(
            "Account",
            "owner",
            &Bound::Included(text("Bob")),
            &Bound::Unbounded
        ),
        Some(vec![1, 2])
    );
    assert_eq!(
        s.lookup_node_ordered("Account", "owner", false),
        Some(vec![2, 1, 0])
    );
    s.set_node_prop(0, "owner", text("Dan"));
    assert_eq!(s.lookup_node_eq("Account", "owner", &text("Bob")), None);
    assert_eq!(
        s.lookup_node_ordered("Account", "owner", false),
        Some(vec![2, 1, 0])
    );
    assert_eq!(s.lookup_node_ordered("Person", "owner", true), None);
    s.rollback_session();
    assert_eq!(
        s.lookup_node_eq("Account", "owner", &text("Ada")),
        Some(vec![0])
    );
}

#[test]
fn two_openings_of_a_file_answer_alike() {
    let want = graph();
    let a = LazyGraphStore::open_with_indexes(file(), true).unwrap();
    let b = LazyGraphStore::open_with_indexes(file(), true).unwrap();
    assert_eq!((a.node_count(), a.edge_count()), (4, 3));
    assert_eq!((b.node_count(), b.edge_count()), (4, 3));
    assert_eq!(a.nodes(), b.nodes());
    assert_eq!(a.edges_directed(), b.edges_directed());
    assert_eq!(a.edges_undirected(), b.edges_undirected());
    for n in a.nodes() {
        let i = n as usize;
        for s in [&a, &b] {
            assert_eq!(s.node_labels(n), want.node_labels[i]);
            assert_eq!(s.node_props(n), want.node_props[i]);
        }
        assert_eq!(a.outgoing_edges(n), b.outgoing_edges(n));
        assert_eq!(a.incoming_edges(n), b.incoming_edges(n));
        assert_eq!(a.undirected_edges_of(n), b.undirected_edges_of(n));
    }
    for e in 0..3 {
        let i = e as usize;
        for s in [&a, &b] {
            assert_eq!(s.edge_labels(e), want.edge_labels[i]);
            assert_eq!(s.edge_props(e), want.edge_props[i]);
            assert_eq!((s.src(e), s.tgt(e)), (want.edge_src[i], want.edge_tgt[i]));
            assert_eq!(s.is_directed(e), want.edge_directed[i]);
        }
    }
    for l in ["Account", "Closed", "Person", "Transfer", "Friend", "Ghost"] {
        assert_eq!(a.nodes_with_label(l), b.nodes_with_label(l));
        assert_eq!(a.directed_edges_with_label(l), b.directed_edges_with_label(l));
        assert_eq!(a.undirected_edges_with_label(l), b.undirected_edges_with_label(l));
        assert_eq!(
            a.lookup_node_eq(l, "owner", &text("Bob")),
            b.lookup_node_eq(l, "owner", &text("Bob"))
        );
        assert_eq!(
            a.lookup_node_ordered(l, "owner", true),
            b.lookup_node_ordered(l, "owner", true)
        );
    }
}

#[test]
fn changes_are_read_back_and_rolled_back() {
    let mut s = lazy();
    let n = s.insert_node(label("Account"), props(vec![("owner", text("Eve"))]));
    assert_eq!(n, 4);
    let e = s.insert_edge(0, n, true, label("Transfer"), props(vec![]));
    assert_eq!(e, 3);
    assert_eq!(s.nodes_with_label("Account"), Some(vec![0, 1, 2, 4]));
    assert_eq!(s.outgoing_edges(0), vec![0, 3]);
    assert_eq!(s.incoming_edges(4), vec![3]);

    s.set_node_prop(0, "owner", text("Zoe"));
    s.remove_node_prop(1, "owner");
    s.replace_node_props(2, props(vec![("x", Value::Int(1))]));
    s.add_node_label(3, "Account");
    s.remove_node_label(2, "Closed");
    assert_eq!(s.node_props(0), props(vec![("owner", text("Zoe"))]));
    assert_eq!(s.node_props(1), props(vec![]));
    assert_eq!(s.node_props(2), props(vec![("x", Value::Int(1))]));
    assert_eq!(s.nodes_with_label("Account"), Some(vec![0, 1, 2, 3, 4]));
    assert_eq!(s.nodes_with_label("Closed"), Some(vec![]));

    s.set_edge_prop(0, "amount", Value::Int(9));
    s.remove_edge_prop(1, "amount");
    s.replace_edge_props(2, props(vec![("since", Value::Int(3))]));
    s.add_edge_label(0, "Big");
    s.remove_edge_label(2, "Friend");
    assert_eq!(s.edge_props(0), props(vec![("amount", Value::Int(9))]));
    assert_eq!(s.edge_props(1), props(vec![]));
    assert_eq!(s.edge_props(2), props(vec![("since", Value::Int(3))]));
    assert_eq!(s.directed_edges_with_label("Big"), Some(vec![0]));
    assert_eq!(s.edge_labels(2), LabelType::Star);

    s.rollback_session();
    let clean = lazy();
    assert_eq!(s.nodes(), clean.nodes());
    assert_eq!(s.node_props(0), clean.node_props(0));
    assert_eq!(s.edge_labels(2), clean.edge_labels(2));
    assert_eq!(s.outgoing_edges(0), clean.outgoing_edges(0));
}

#[test]
fn a_node_with_edges_is_deleted_only_with_them() {
    let mut s = lazy();
    let refused = s.delete_node_no_detach(1).unwrap_err();
    assert_eq!(refused.node, 1);
    assert_eq!(refused.remaining_edges, vec![1, 0]);
    assert!(s.is_node_alive(1));

    s.detach_delete_node(1);
    assert!(!s.is_node_alive(1));
    assert!(!s.is_edge_alive(0));
    assert!(!s.is_edge_alive(1));
    assert!(s.is_edge_alive(2));
    assert_eq!(s.nodes(), vec![0, 2, 3]);
    assert_eq!(s.edges_directed(), Vec::<u32>::new());
    assert!(s.delete_node_no_detach(2).is_ok());
    assert_eq!(s.nodes(), vec![0, 3]);
}

#[test]
fn saving_compacts_what_is_left() {
    let mut s = lazy();
    s.detach_delete_node(0);
    let n = s.insert_node(label("Account"), props(vec![]));
    s.insert_edge(n, 2, true, label("Transfer"), props(vec![]));
    let g = s.materialize_to_graph();
    assert_eq!(g.node_names.len(), 4);
    assert_eq!(&g.node_names[..3], &["a2", "a3", "p"]);
    assert_eq!(g.edge_src, vec![0, 3]);
    assert_eq!(g.edge_tgt, vec![1, 1]);
    let mut pager = Pager::create();
    let catalog: Vec<u8> = vec![7, 8];
    s.save(&catalog, None, &mut pager).unwrap();
    assert_eq!(read_catalog(&pager, pager.header.catalog_root).unwrap(), catalog);
    let back = LazyGraphStore::open(pager).unwrap();
    assert_eq!(back.nodes(), vec![0, 1, 2, 3]);
    assert_eq!(back.edges_directed(), vec![0, 1]);
    assert_eq!(back.node_labels(3), label("Account"));
}

#[test]
fn a_declared_index_is_used() {
    let mut s = LazyGraphStore::open_with_indexes(file(), false).unwrap();
    assert_eq!(s.lookup_node_eq("Account", "owner", &text("Cleo")), None);
    let spec = s
        .declare_index("own".to_string(), "Account", "owner", IndexKind::BTree)
        .unwrap();
    assert_eq!(spec.entries, 3);
    assert_eq!(
        s.lookup_node_eq("Account", "owner", &text("Cleo")),
        Some(vec![2])
    );
    assert!(s
        .declare_index("own2".to_string(), "Account", "owner", IndexKind::BTree)
        .is_err());
}

#[test]
fn a_value_that_is_a_reference_is_not_saved() {
    let mut g = MemoryGraphStore::new();
    g.push_node("n".into(), label("A"), props(vec![("r", Value::Node(0))]));
    let mut pager = Pager::create();
    assert_eq!(
        save_graph(&g, &mut pager),
        Err(StoreError::ReferenceValue)
    );
}

#[test]
fn stores_by_name_answer_as_the_graph() {
    let s = GraphStore::open(file()).unwrap();
    let d = DiskGraphStore::open(file()).unwrap();
    assert_eq!(s.all_node_user_ids(), &vec!["a1", "a2", "a3", "p"]);
    assert_eq!(d.nodes(), s.all_node_user_ids());
    assert_eq!(s.all_directed_edge_user_ids(), vec!["t1", "t2"]);
    assert_eq!(d.edges_directed(), vec!["t1", "t2"]);
    assert_eq!(s.all_undirected_edge_user_ids(), vec!["f"]);
    assert_eq!(d.edges_undirected(), vec!["f"]);
    assert_eq!(s.labels_by_user_id("a1"), Some(&label("Account")));
    assert_eq!(d.labels("a1"), label("Account"));
    assert_eq!(s.labels_by_user_id("nobody"), None);
    assert_eq!(
        s.props_by_user_id("t2").unwrap().get("amount"),
        Some(&Value::Int(7))
    );
    assert_eq!(d.props("t2"), props(vec![("amount", Value::Int(7))]));
    assert_eq!(s.edge_src_user_id("t1").unwrap(), "a1");
    assert_eq!(s.edge_tgt_user_id("t1").unwrap(), "a2");
    assert_eq!((d.src("t1"), d.tgt("t1")), ("a1", "a2"));
    assert_eq!(d.endpoints("f"), ("a1", "p"));
    assert!(s.is_edge_directed("t1") && d.is_directed("t1"));
    assert!(!s.is_edge_directed("f") && !d.is_directed("f"));
    assert_eq!(
        s.nodes_with_label("Closed"),
        Some(vec!["a3".to_string()])
    );
    assert_eq!(d.nodes_with_label("Closed"), s.nodes_with_label("Closed"));
    assert_eq!(d.nodes_with_label("Ghost"), None);
    assert_eq!(
        d.directed_edges_with_label("Transfer"),
        Some(vec!["t1".to_string(), "t2".to_string()])
    );
    assert_eq!(
        s.undirected_edges_with_label("Friend"),
        Some(vec!["f".to_string()])
    );
    assert_eq!(
        d.undirected_edges_with_label("Friend"),
        Some(vec!["f".to_string()])
    );
    assert_eq!(s.outgoing_edges("a2"), vec!["t2"]);
    assert_eq!(d.outgoing_edges("a2"), vec!["t2"]);
    assert_eq!(d.incoming_edges("a2"), vec!["t1"]);
    assert_eq!(d.undirected_edges_of("p"), vec!["f"]);
    assert_eq!(s.undirected_edges_of("nobody"), Vec::<String>::new());
}

#[test]
fn a_file_is_made_where_there_is_none() {
    let s = LazyGraphStore::open_or_create(None).unwrap();
    assert!(s.nodes().is_empty());
    assert!(s.edges_directed().is_empty());
    assert!(s.secondary_indexes().is_empty());
    let t = LazyGraphStore::open_or_create(Some(file())).unwrap();
    assert_eq!(t.nodes(), LazyGraphStore::open(file()).unwrap().nodes());
}

#[test]
fn inferred_indexes_are_built_from_the_file() {
    let plain = LazyGraphStore::open_with_indexes(file(), false).unwrap();
    assert!(plain.secondary_indexes().is_empty());
    let built = plain.build_auto_indexes_bulk();
    let opened = LazyGraphStore::open(file()).unwrap();
    assert_eq!(built.list().len(), opened.secondary_indexes().list().len());
    assert!(built.list().iter().all(|s| s.auto));
}

#[test]
fn declared_indexes_are_made_again() {
    let mut s = LazyGraphStore::open_with_indexes(file(), false).unwrap();
    let spec = |name: &str, kind: IndexKind| DeclaredSpec {
        name: name.to_string(),
        label: "Account".to_string(),
        prop: "owner".to_string(),
        kind,
    };
    s.replay_declared(vec![
        spec("one", IndexKind::Hash),
        spec("two", IndexKind::Hash),
        spec("three", IndexKind::BTree),
    ]);
    let names: Vec<&str> = s.secondary_indexes().list().iter().map(|x| x.name.as_str()).collect();
    assert_eq!(names, vec!["one", "three"]);
    assert_eq!(s.lookup_node_eq("Account", "owner", &text("Cleo")), Some(vec![2]));
}

#[test]
fn an_index_is_dropped_by_its_name() {
    let mut s = LazyGraphStore::open_with_indexes(file(), false).unwrap();
    s.declare_index("own".to_string(), "Account", "owner", IndexKind::Hash).unwrap();
    assert_eq!(s.lookup_node_eq("Account", "owner", &text("Cleo")), Some(vec![2]));
    assert!(s.secondary_indexes_mut().drop_named("own"));
    assert!(!s.secondary_indexes_mut().drop_named("own"));
    assert_eq!(s.lookup_node_eq("Account", "owner", &text("Cleo")), None);
}

#[test]
fn a_labelled_node_is_listed_once() {
    let mut s = lazy();
    let n = s.insert_node(label("Account"), props(vec![]));
    s.add_node_label(0, "Account");
    s.add_node_label(3, "Account");
    s.add_node_label(3, "Account");
    s.remove_node_label(1, "Account");
    s.add_node_label(1, "Account");
    s.add_node_label(n, "Account");
    assert_eq!(s.nodes_with_label("Account"), Some(vec![0, 1, 2, 3, 4]));
}

#[test]
fn a_rolled_back_store_lists_what_its_file_lists() {
    let mut s = lazy();
    s.detach_delete_node(0);
    let n = s.insert_node(label("Account"), props(vec![]));
    s.insert_edge(n, 2, true, label("Transfer"), props(vec![]));
    s.set_node_prop(2, "owner", text("Dan"));
    s.rollback_session();
    let clean = lazy();
    assert_eq!(s.nodes(), clean.nodes());
    assert_eq!(s.edges_directed(), clean.edges_directed());
    assert_eq!(s.edges_undirected(), clean.edges_undirected());
    for i in clean.nodes() {
        assert_eq!(s.node_labels(i), clean.node_labels(i));
        assert_eq!(s.node_props(i), clean.node_props(i));
        assert_eq!(s.outgoing_edges(i), clean.outgoing_edges(i));
        assert_eq!(s.incoming_edges(i), clean.incoming_edges(i));
        assert_eq!(s.undirected_edges_of(i), clean.undirected_edges_of(i));
    }
    for e in 0..3 {
        assert_eq!(s.edge_props(e), clean.edge_props(e));
        assert_eq!((s.src(e), s.tgt(e)), (clean.src(e), clean.tgt(e)));
    }
    assert_eq!(s.insert_node(label("Account"), props(vec![])), n);
}

#[test]
fn a_label_is_added_once_and_behind_the_others() {
    let mut s = lazy();
    let and = |a, b| LabelType::And(Box::new(a), Box::new(b));
    let before = and(label("Account"), label("Closed"));
    assert_eq!(s.node_labels(2), before);
    s.add_node_label(2, "Account");
    s.remove_node_label(2, "Ghost");
    assert_eq!(s.node_labels(2), before);
    s.add_node_label(2, "Zeta");
    s.add_node_label(2, "Zeta");
    assert_eq!(
        s.node_labels(2),
        and(label("Account"), and(label("Closed"), label("Zeta")))
    );
    s.remove_node_label(2, "Account");
    assert_eq!(s.node_labels(2), and(label("Closed"), label("Zeta")));
    s.add_edge_label(0, "Transfer");
    assert_eq!(s.edge_labels(0), label("Transfer"));
}
