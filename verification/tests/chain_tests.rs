use frogql::store::catalog_io::{read_catalog, write_catalog};
use frogql::store::pager::{PageType, Pager, StoreError};
use frogql::store::chain::{free_chain, read_chain, write_chain};
use frogql::store::secondary_index::{IndexKind, IndexSpec};
use frogql::store::secondary_index_io::{declared, persisted, read_specs, write_specs};

/// A catalog without types, and one with the default type, as they are kept.
const EMPTY: &[u8] = b"{\"types\":{},\"active\":null}";
const DEFAULT: &[u8] = b"{\"types\":{\"DEFAULT\":{}},\"active\":\"DEFAULT\"}";

#[test]
fn roundtrip_empty_catalog() {
    let mut pager = Pager::create();
    let root = write_catalog(&mut pager, &EMPTY.to_vec(), 0).unwrap();
    assert!(root != 0);
    let back = read_catalog(&pager, root).unwrap();
    assert_eq!(back, EMPTY);
}

#[test]
fn roundtrip_default_catalog() {
    let mut pager = Pager::create();
    let root = write_catalog(&mut pager, &DEFAULT.to_vec(), 0).unwrap();
    let back = read_catalog(&pager, root).unwrap();
    assert_eq!(back, DEFAULT);
}

#[test]
fn read_zero_root_is_empty() {
    let pager = Pager::create();
    let back = read_catalog(&pager, 0).unwrap();
    assert!(back.is_empty());
}

#[test]
fn rewrite_frees_old_chain() {
    let mut pager = Pager::create();
    let root1 = write_catalog(&mut pager, &DEFAULT.to_vec(), 0).unwrap();
    let root2 = write_catalog(&mut pager, &DEFAULT.to_vec(), root1).unwrap();
    // The freed page should have been recycled into the new chain,
    // so root2 reuses root1.
    assert_eq!(root1, root2);
}

#[test]
fn a_long_payload_spans_pages_and_is_read_back() {
    let mut pager = Pager::create();
    let long: Vec<u8> = (0..10_000u32).map(|i| (i % 251) as u8).collect();
    let root = write_catalog(&mut pager, &long, 0).unwrap();
    assert!(pager.page_count() > 3);
    assert_eq!(read_catalog(&pager, root).unwrap(), long);

    // A shorter one takes its place and gives pages back.
    let before = pager.page_count();
    let root = write_catalog(&mut pager, &EMPTY.to_vec(), root).unwrap();
    assert_eq!(read_catalog(&pager, root).unwrap(), EMPTY);
    assert_eq!(pager.page_count(), before);
    assert!(!pager.free.is_empty());
}

#[test]
fn a_chain_starts_on_a_page_of_its_type() {
    let mut pager = Pager::create();
    let root = write_chain(&mut pager, &vec![1, 2, 3], PageType::Catalog).unwrap();
    assert_eq!(
        read_chain(&pager, root, PageType::Catalog),
        Ok(vec![1, 2, 3])
    );
    assert_eq!(
        read_chain(&pager, root, PageType::SecondaryIndex),
        Err(StoreError::WrongRoot)
    );
    assert_eq!(
        read_chain(&pager, 99, PageType::Catalog),
        Err(StoreError::NoSuchPage)
    );
    assert_eq!(free_chain(&mut pager, root), Ok(()));
    assert_eq!(
        read_chain(&pager, root, PageType::Catalog),
        Err(StoreError::WrongRoot)
    );
}

fn spec(name: &str, kind: IndexKind, auto: bool) -> IndexSpec {
    IndexSpec {
        name: name.to_string(),
        label: "Person".to_string(),
        prop: "id".to_string(),
        kind,
        auto,
        entries: 3,
    }
}

#[test]
fn only_declared_indexes_are_kept() {
    let specs = vec![
        spec("a", IndexKind::Hash, true),
        spec("b", IndexKind::BTree, false),
        spec("c", IndexKind::Hash, false),
    ];
    let kept = persisted(&specs);
    let names: Vec<&str> = kept.iter().map(|p| p.name.as_str()).collect();
    assert_eq!(names, vec!["b", "c"]);
    let kinds: Vec<IndexKind> = kept.into_iter().map(|p| declared(p).kind).collect();
    assert_eq!(kinds, vec![IndexKind::BTree, IndexKind::Hash]);
}

#[test]
fn index_specs_are_written_and_dropped() {
    let mut pager = Pager::create();
    assert!(read_specs(&pager, 0).unwrap().is_empty());
    let bytes = b"[1]".to_vec();
    let root = write_specs(&mut pager, Some(&bytes), 0).unwrap();
    assert_eq!(read_specs(&pager, root).unwrap(), bytes);
    assert_eq!(write_specs(&mut pager, None, root), Ok(0));
    assert!(!pager.free.is_empty());
}
