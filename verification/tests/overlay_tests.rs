use frogql::fields::FieldMap;
use frogql::store::overlay::MutationOverlay;
use frogql::typing::label_type::LabelType;

#[test]
fn new_edges_stand_under_their_ends() {
    let mut o = MutationOverlay::new(5, 7);
    let label = || LabelType::Label("E".to_string());
    // A loop without a direction stands once under its node.
    assert_eq!(o.insert_edge(2, 2, false, label(), FieldMap::new()), 7);
    assert_eq!(o.next_edge_id(), 8);
    assert_eq!(o.new_undirected.get(&2), Some(&vec![7]));
    assert_eq!(o.new_undirected.len(), 1);
    assert!(o.new_outgoing.is_empty());
    assert!(o.new_incoming.is_empty());
    assert_eq!(o.insert_edge(2, 3, true, label(), FieldMap::new()), 8);
    assert_eq!(o.new_outgoing.get(&2), Some(&vec![8]));
    assert_eq!(o.new_outgoing.len(), 1);
    assert_eq!(o.new_incoming.get(&3), Some(&vec![8]));
    assert_eq!(o.new_incoming.len(), 1);
    assert_eq!(o.insert_edge(3, 2, false, label(), FieldMap::new()), 9);
    assert_eq!(o.new_undirected.get(&2), Some(&vec![7, 9]));
    assert_eq!(o.new_undirected.get(&3), Some(&vec![9]));
}

#[test]
fn an_edge_may_come_before_its_ends() {
    let mut o = MutationOverlay::new(0, 0);
    let e = o.insert_edge(4, 9, true, LabelType::Star, FieldMap::new());
    assert_eq!(e, 0);
    assert_eq!(o.new_outgoing.get(&4), Some(&vec![0]));
    assert_eq!(o.new_incoming.get(&9), Some(&vec![0]));
    assert_eq!(o.next_node_id(), 0);
}
