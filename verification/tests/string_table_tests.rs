use frogql::store::pager::Pager;
use frogql::store::string_table::{StringTable, MAX_INLINE};

#[test]
fn test_intern_and_resolve() {
    let mut pager = Pager::create();
    let mut st = StringTable::new();
    st.init(&mut pager).unwrap();

    let id0 = st.intern("hello", &mut pager).unwrap();
    let id1 = st.intern("world", &mut pager).unwrap();
    let id2 = st.intern("hello", &mut pager).unwrap(); // dedup

    assert_eq!(id0, 0);
    assert_eq!(id1, 1);
    assert_eq!(id2, 0); // same as first
    assert_eq!(st.len(), 2);

    assert_eq!(st.resolve(0), Some("hello"));
    assert_eq!(st.resolve(1), Some("world"));
    assert_eq!(st.resolve(99), None);
}

#[test]
fn test_load_from_disk() {
    let mut pager = Pager::create();
    let mut st = StringTable::new();
    st.init(&mut pager).unwrap();
    st.intern("Account", &mut pager).unwrap();
    st.intern("Transfer", &mut pager).unwrap();
    st.intern("owner", &mut pager).unwrap();
    let pages = st.page_numbers().to_vec();

    // Load from the pages alone.
    let st = StringTable::load(&pages, &pager).unwrap();
    assert_eq!(st.len(), 3);
    assert_eq!(st.resolve(0), Some("Account"));
    assert_eq!(st.resolve(1), Some("Transfer"));
    assert_eq!(st.resolve(2), Some("owner"));
}

#[test]
fn test_many_strings_span_pages() {
    let mut pager = Pager::create();
    let mut st = StringTable::new();
    st.init(&mut pager).unwrap();

    // Insert enough strings to span multiple pages
    // Each string ~100 bytes + 2 overhead, page has ~4086 usable → ~39 per page
    for i in 0..100 {
        let s = format!("string_number_{:0>90}", i); // ~105 bytes each
        st.intern(&s, &mut pager).unwrap();
    }

    assert_eq!(st.len(), 100);
    assert!(st.page_numbers().len() > 1);

    // Verify all resolve correctly
    for i in 0..100 {
        let expected = format!("string_number_{:0>90}", i);
        assert_eq!(st.resolve(i as u32), Some(expected.as_str()));
    }

    // Load from disk and verify
    let pages = st.page_numbers().to_vec();
    let st2 = StringTable::load(&pages, &pager).unwrap();
    assert_eq!(st2.len(), 100);
    for i in 0..100 {
        let expected = format!("string_number_{:0>90}", i);
        assert_eq!(st2.resolve(i as u32), Some(expected.as_str()));
    }
}

#[test]
fn test_overflow_single_large_string() {
    let mut pager = Pager::create();
    let mut st = StringTable::new();
    st.init(&mut pager).unwrap();

    // Create a string larger than one page (8000 bytes > 4096)
    let big = "X".repeat(8000);
    let id = st.intern(&big, &mut pager).unwrap();
    assert_eq!(id, 0);
    assert_eq!(st.resolve(0).unwrap(), big);

    // Verify it survives load from disk
    let pages = st.page_numbers().to_vec();
    let st2 = StringTable::load(&pages, &pager).unwrap();
    assert_eq!(st2.len(), 1);
    assert_eq!(st2.resolve(0).unwrap(), big);
}

#[test]
fn test_overflow_very_large_string() {
    let mut pager = Pager::create();
    let mut st = StringTable::new();
    st.init(&mut pager).unwrap();

    // 20KB string — needs multiple overflow pages
    let big = "A".repeat(20_000);
    let id = st.intern(&big, &mut pager).unwrap();
    assert_eq!(id, 0);
    assert_eq!(st.resolve(0).unwrap(), big);

    // Load from disk
    let pages = st.page_numbers().to_vec();
    let st2 = StringTable::load(&pages, &pager).unwrap();
    assert_eq!(st2.resolve(0).unwrap(), big);
}

#[test]
fn test_overflow_mixed_with_inline() {
    let mut pager = Pager::create();
    let mut st = StringTable::new();
    st.init(&mut pager).unwrap();

    // Mix of short and long strings
    let short1 = "hello";
    let big = "B".repeat(10_000);
    let short2 = "world";
    let big2 = "C".repeat(5_000);
    let short3 = "!";

    st.intern(short1, &mut pager).unwrap();
    st.intern(&big, &mut pager).unwrap();
    st.intern(short2, &mut pager).unwrap();
    st.intern(&big2, &mut pager).unwrap();
    st.intern(short3, &mut pager).unwrap();

    assert_eq!(st.len(), 5);
    assert_eq!(st.resolve(0).unwrap(), short1);
    assert_eq!(st.resolve(1).unwrap(), big);
    assert_eq!(st.resolve(2).unwrap(), short2);
    assert_eq!(st.resolve(3).unwrap(), big2);
    assert_eq!(st.resolve(4).unwrap(), short3);

    // Load from disk
    let pages = st.page_numbers().to_vec();
    let st2 = StringTable::load(&pages, &pager).unwrap();
    assert_eq!(st2.len(), 5);
    assert_eq!(st2.resolve(0).unwrap(), short1);
    assert_eq!(st2.resolve(1).unwrap(), big);
    assert_eq!(st2.resolve(2).unwrap(), short2);
    assert_eq!(st2.resolve(3).unwrap(), big2);
    assert_eq!(st2.resolve(4).unwrap(), short3);
}

#[test]
fn test_overflow_dedup() {
    let mut pager = Pager::create();
    let mut st = StringTable::new();
    st.init(&mut pager).unwrap();

    let big = "D".repeat(8000);
    let id1 = st.intern(&big, &mut pager).unwrap();
    let id2 = st.intern(&big, &mut pager).unwrap();

    assert_eq!(id1, id2); // deduplication works
    assert_eq!(st.len(), 1);
}

#[test]
fn test_overflow_exact_page_boundary() {
    let mut pager = Pager::create();
    let mut st = StringTable::new();
    st.init(&mut pager).unwrap();

    // String exactly at the inline limit (MAX_INLINE - 2 bytes for len prefix)
    let exact = "E".repeat(MAX_INLINE - 2);
    st.intern(&exact, &mut pager).unwrap();
    assert_eq!(st.resolve(0).unwrap(), exact);

    // String one byte over the inline limit — triggers overflow
    let over = "F".repeat(MAX_INLINE - 1);
    st.intern(&over, &mut pager).unwrap();
    assert_eq!(st.resolve(1).unwrap(), over);

    // Load from disk
    let pages = st.page_numbers().to_vec();
    let st2 = StringTable::load(&pages, &pager).unwrap();
    assert_eq!(st2.resolve(0).unwrap(), exact);
    assert_eq!(st2.resolve(1).unwrap(), over);
}

#[test]
fn a_loaded_table_takes_more_texts() {
    let mut pager = Pager::create();
    let mut st = StringTable::new();
    st.init(&mut pager).unwrap();
    let names: Vec<String> = (0..60).map(|i| format!("text_{i}_{:0>90}", i)).collect();
    for s in &names[..50] {
        st.intern(s, &mut pager).unwrap();
    }
    let mut st = StringTable::load(&st.page_numbers().to_vec(), &pager).unwrap();
    for (i, s) in names.iter().enumerate() {
        assert_eq!(st.intern(s, &mut pager).unwrap(), i as u32);
    }
    let again = StringTable::load(&st.page_numbers().to_vec(), &pager).unwrap();
    assert_eq!(again.len(), 60);
    for (i, s) in names.iter().enumerate() {
        assert_eq!(again.resolve(i as u32), Some(s.as_str()));
    }
}
