use frogql::fields::FieldMap;
use frogql::model::graph::MemoryGraphStore;
use frogql::store::io::{load_graph, save_graph};
use frogql::store::pager::{Pager, StoreError, PAGE_SIZE};
use frogql::typing::label_type::LabelType;

fn pager() -> Pager {
    let mut g = MemoryGraphStore::new();
    let label = |s: &str| LabelType::Label(s.to_string());
    g.push_node("a".into(), label("A"), FieldMap::new());
    g.push_node("b".into(), label("B"), FieldMap::new());
    g.push_edge("e".into(), label("E"), FieldMap::new(), 0, 1, true);
    let mut pager = Pager::create();
    save_graph(&g, &mut pager).unwrap();
    pager
}

#[test]
fn a_file_is_read_back_from_its_bytes() {
    let mut p = pager();
    let extra = p.allocate_page().unwrap();
    p.free_page(extra);
    let bytes = p.to_bytes();
    assert_eq!(bytes.len(), 13 * 4 + p.pages.len() * PAGE_SIZE + p.free.len() * 4);
    // The first number is the count of nodes, the second that of edges.
    assert_eq!(&bytes[..8], &[2, 0, 0, 0, 1, 0, 0, 0]);
    let back = Pager::from_bytes(&bytes).unwrap();
    assert_eq!(back.header, p.header);
    assert_eq!(back.pages, p.pages);
    assert_eq!(back.free, vec![extra]);
    let g = load_graph(&back).unwrap();
    assert_eq!(g.node_names, vec!["a", "b"]);
    assert_eq!(g.edge_tgt, vec![1]);
}

#[test]
fn an_empty_file_is_read_back() {
    let p = Pager::create();
    let back = Pager::from_bytes(&p.to_bytes()).unwrap();
    assert_eq!(back.header, p.header);
    assert_eq!(back.pages, p.pages);
    assert!(back.free.is_empty());
}

#[test]
fn bytes_that_are_no_file_are_refused() {
    let refused = |b: Vec<u8>| match Pager::from_bytes(&b) {
        Err(e) => assert_eq!(e, StoreError::Malformed),
        Ok(_) => panic!("{} bytes were accepted", b.len()),
    };
    let good = pager().to_bytes();
    for n in 0..60 {
        refused(good[..n].to_vec());
    }
    refused(good[..good.len() - 1].to_vec());
    let mut long = good.clone();
    long.push(0);
    refused(long);
    // No page at all.
    let mut none = good[..52].to_vec();
    none[44..48].copy_from_slice(&[0, 0, 0, 0]);
    refused(none);
    // A free page that the file does not have.
    let mut p = pager();
    let extra = p.allocate_page().unwrap();
    p.free_page(extra);
    let mut bad = p.to_bytes();
    let at = bad.len() - 4;
    bad[at..].copy_from_slice(&[255, 255, 0, 0]);
    refused(bad);
}
