use frogql::fields::FieldMap;
use frogql::model::value::{Props, Value};
use frogql::store::index_key::IndexKey;
use frogql::store::key_map::KeyBound;
use frogql::store::overlay_index::OverlayNodeIndex;

fn props(items: Vec<(&str, Value)>) -> Props {
    let mut m = FieldMap::new();
    for (k, v) in items {
        m.insert(k.to_string(), v);
    }
    m
}

fn pairs() -> Vec<(String, String)> {
    vec![("Person".to_string(), "age".to_string())]
}

fn person() -> Vec<String> {
    vec!["Person".to_string()]
}

#[test]
fn a_changed_node_is_filed_anew() {
    let mut x = OverlayNodeIndex::new();
    x.reindex(&pairs(), 10, 3, &person(), &props(vec![("age", Value::Int(30))]));
    assert_eq!(x.lookup_eq("Person", "age", &Value::Int(30)), vec![3]);
    assert!(x.is_shadowed(3));
    x.reindex(&pairs(), 10, 3, &person(), &props(vec![("age", Value::Int(31))]));
    assert!(x.lookup_eq("Person", "age", &Value::Int(30)).is_empty());
    assert_eq!(x.lookup_eq("Person", "age", &Value::Int(31)), vec![3]);
}

#[test]
fn a_new_node_shadows_nothing() {
    let mut x = OverlayNodeIndex::new();
    x.reindex(&pairs(), 10, 12, &person(), &props(vec![("age", Value::Int(5))]));
    assert!(!x.is_shadowed(12));
    assert_eq!(x.ordered_entries("Person", "age").entries.len(), 1);
    assert!(x.ordered_entries("Person", "name").entries.is_empty());
}

#[test]
fn a_property_that_is_not_indexed_is_not_filed() {
    let mut x = OverlayNodeIndex::new();
    x.reindex(&pairs(), 0, 1, &person(), &props(vec![("name", Value::Str("Al".to_string()))]));
    assert!(x.lookup_eq("Person", "name", &Value::Str("Al".to_string())).is_empty());
}

#[test]
fn a_forgotten_node_is_nowhere() {
    let mut x = OverlayNodeIndex::new();
    x.reindex(&pairs(), 10, 3, &person(), &props(vec![("age", Value::Int(30))]));
    x.forget(10, 3);
    assert!(x.is_shadowed(3));
    assert!(x.lookup_eq("Person", "age", &Value::Int(30)).is_empty());
    x.clear();
    assert!(!x.is_shadowed(3));
}

#[test]
fn a_range_is_looked_up_in_order() {
    let mut x = OverlayNodeIndex::new();
    for (id, age) in [(1u32, 40i64), (2, 20), (3, 30)] {
        x.reindex(&pairs(), 0, id, &person(), &props(vec![("age", Value::Int(age))]));
    }
    let lo = KeyBound::Included(IndexKey::from_value(&Value::Int(30)).unwrap());
    assert_eq!(x.lookup_range("Person", "age", &lo, &KeyBound::Unbounded), vec![3, 1]);
    let hi = KeyBound::Excluded(IndexKey::from_value(&Value::Int(40)).unwrap());
    assert_eq!(x.lookup_range("Person", "age", &KeyBound::Unbounded, &hi), vec![2, 3]);
}
