use frogql::fields::FieldMap;
use frogql::model::graph::MemoryGraphStore;
use frogql::model::value::{Props, Value};
use frogql::store::index_key::IndexKey;
use frogql::store::index_memory::{sum_tables, LabelRoom, PropRoom};
use frogql::store::key_map::Bound;
use frogql::store::secondary_index::{IndexKind, SecondaryIndex};
use frogql::typing::label_type::LabelType;

fn props(pairs: Vec<(&str, Value)>) -> Props {
    let mut m = FieldMap::new();
    for (k, v) in pairs {
        m.insert(k.to_string(), v);
    }
    m
}

fn text(s: &str) -> Value {
    Value::Str(s.to_string())
}

fn small_graph() -> MemoryGraphStore {
    let mut g = MemoryGraphStore::new();
    let mut add = |id: &str, label: &str, pairs: Vec<(&str, Value)>| {
        g.push_node(
            id.to_string(),
            LabelType::Label(label.to_string()),
            props(pairs),
        );
    };
    add("p1", "Person", vec![("id", Value::Int(1)), ("firstName", text("Alice"))]);
    add("p2", "Person", vec![("id", Value::Int(2)), ("firstName", text("Bob"))]);
    add("p3", "Person", vec![("id", Value::Int(3)), ("firstName", text("Alice"))]);
    add("c1", "Country", vec![("id", Value::Int(10)), ("name", text("Chile"))]);
    add("c2", "Country", vec![("id", Value::Int(11)), ("name", text("Peru"))]);
    g
}

#[test]
fn auto_indexes_unique_props_only() {
    let g = small_graph();
    let mut idx = SecondaryIndex::new();
    idx.auto_build(&g);

    // Person.id is unique → indexed
    assert!(idx.has("Person", "id"));
    // Country.id and Country.name are unique → indexed
    assert!(idx.has("Country", "id"));
    assert!(idx.has("Country", "name"));
    // Person.firstName is NOT unique (Alice repeats) → not indexed
    assert!(!idx.has("Person", "firstName"));
}

#[test]
fn lookup_eq_returns_node_id() {
    let g = small_graph();
    let mut idx = SecondaryIndex::new();
    idx.auto_build(&g);

    let hits = idx.lookup_eq("Person", "id", &Value::Int(2)).unwrap();
    assert_eq!(hits.len(), 1);

    let miss = idx.lookup_eq("Person", "id", &Value::Int(999)).unwrap();
    assert!(miss.is_empty());

    // Non-indexed prop returns None (caller must fall back).
    assert!(idx
        .lookup_eq("Person", "firstName", &Value::Str("Alice".into()))
        .is_none());
}

#[test]
fn a_declared_index_answers_equal_ranges_and_orders() {
    let g = small_graph();
    let mut idx = SecondaryIndex::new();
    let spec = idx
        .build_declared(&g, "by_name".to_string(), "Person", "firstName", IndexKind::BTree)
        .unwrap();
    assert_eq!(spec.entries, 2);
    assert!(!spec.auto);
    assert!(idx.has_btree("Person", "firstName"));
    assert_eq!(
        idx.lookup_eq("Person", "firstName", &text("Alice")),
        Some(vec![0, 2])
    );
    assert_eq!(
        idx.lookup_range(
            "Person",
            "firstName",
            &Bound::Excluded(text("Alice")),
            &Bound::Unbounded
        ),
        Some(vec![1])
    );
    assert_eq!(
        idx.ordered_ids("Person", "firstName", true),
        Some(vec![0, 2, 1])
    );
    assert_eq!(
        idx.ordered_ids("Person", "firstName", false),
        Some(vec![1, 0, 2])
    );
    // The same index cannot be declared again.
    assert!(idx
        .build_declared(&g, "again".to_string(), "Person", "firstName", IndexKind::BTree)
        .is_err());
    assert!(idx.drop_named("by_name"));
    assert!(!idx.drop_named("by_name"));
    assert!(!idx.has("Person", "firstName"));
    assert!(idx.is_empty());
}

#[test]
fn numbers_of_both_kinds_share_keys() {
    let key = |v: &Value| IndexKey::from_value(v).unwrap();
    let two = key(&Value::Int(2));
    let two_point = key(&Value::Float(2.0f64.to_bits()));
    assert!(two.same(&two_point));
    let half = key(&Value::Float(2.5f64.to_bits()));
    assert!(two.less(&half));
    assert!(half.less(&key(&Value::Int(3))));
    assert!(key(&Value::Float((-0.0f64).to_bits())).same(&key(&Value::Int(0))));
    // Two numbers that differ by less than a floating-point step.
    let big = key(&Value::Int(9_007_199_254_740_993));
    let near = key(&Value::Float(9_007_199_254_740_992.0f64.to_bits()));
    assert!(near.less(&big));
    assert!(IndexKey::from_value(&Value::List(vec![])).is_none());
}

#[test]
fn a_value_without_a_key_is_found_nowhere() {
    let mut g = MemoryGraphStore::new();
    g.push_node(
        "n".to_string(),
        LabelType::Label("P".to_string()),
        props(vec![("a", Value::Int(1))]),
    );
    let mut idx = SecondaryIndex::new();
    idx.auto_build(&g);
    assert_eq!(idx.lookup_eq("P", "a", &Value::Null), Some(vec![]));
    assert_eq!(idx.lookup_eq("P", "a", &Value::List(vec![])), Some(vec![]));
    let one = Value::Float(1.0f64.to_bits());
    assert_eq!(idx.lookup_eq("P", "a", &one), Some(vec![0]));
    assert_eq!(idx.lookup_eq("P", "a", &Value::Int(2)), Some(vec![]));
    assert_eq!(idx.lookup_eq("P", "b", &Value::Null), None);
}

#[test]
fn an_inferred_pair_is_listed_once_for_each_kind() {
    let g = small_graph();
    let mut idx = SecondaryIndex::new();
    idx.auto_build(&g);
    for (label, prop, entries) in [("Person", "id", 3), ("Country", "id", 2), ("Country", "name", 2)] {
        let of = |kind: IndexKind| {
            idx.list()
                .iter()
                .filter(|s| s.label == label && s.prop == prop && s.kind == kind)
                .map(|s| (s.auto, s.entries))
                .collect::<Vec<_>>()
        };
        assert_eq!(of(IndexKind::Hash), vec![(true, entries)], "{label}.{prop}");
        assert_eq!(of(IndexKind::BTree), vec![(true, entries)], "{label}.{prop}");
    }
    assert_eq!(idx.list().len(), 6);
}

#[test]
fn memory_counts_names_keys_and_room() {
    let rooms = vec![LabelRoom {
        label: 6,
        props: vec![
            PropRoom { prop: 2, lists: vec![1, 4] },
            PropRoom { prop: 4, lists: vec![] },
        ],
    }];
    assert_eq!(sum_tables(&rooms, 50), (6 + 2) + (50 + 4) + (50 + 16) + (6 + 4));

    let mut idx = SecondaryIndex::new();
    assert_eq!(idx.heap_bytes(), 0);
    idx.auto_build(&small_graph());
    let key = std::mem::size_of::<IndexKey>();
    let names = 2 * ("Personid".len() + "Countryid".len() + "Countryname".len());
    let entries = 7;
    let least = names + entries * (key + 40 + 4) + entries * (key + 24 + 4);
    assert!(idx.heap_bytes() >= least);
    assert!(idx.heap_bytes() < least + 2 * entries * 64);
}
