use frogql::store::record::{
    decode_edge, decode_node, encode_edge, encode_node, read_edge, read_node, PropValue,
};

#[test]
fn test_node_roundtrip() {
    let props = vec![
        (10, PropValue::Str(20)),
        (11, PropValue::Bool(true)),
        (12, PropValue::Int(42)),
    ];
    let encoded = encode_node(5, &[1, 2, 3], &props);
    let (decoded, len) = decode_node(&encoded);

    assert_eq!(len, encoded.len());
    assert_eq!(decoded.user_id_str_id, 5);
    assert_eq!(decoded.label_str_ids, vec![1, 2, 3]);
    assert_eq!(decoded.props.len(), 3);
    assert_eq!(decoded.props[0], (10, PropValue::Str(20)));
    assert_eq!(decoded.props[1], (11, PropValue::Bool(true)));
    assert_eq!(decoded.props[2], (12, PropValue::Int(42)));
}

#[test]
fn test_edge_roundtrip() {
    let props = vec![(7, PropValue::Int(2500000))];
    let encoded = encode_edge(99, &[4], &props, 0, 1, true);
    let decoded = decode_edge(&encoded);

    assert_eq!(decoded.node.user_id_str_id, 99);
    assert_eq!(decoded.node.label_str_ids, vec![4]);
    assert_eq!(decoded.node.props, vec![(7, PropValue::Int(2500000))]);
    assert_eq!(decoded.src_internal_id, 0);
    assert_eq!(decoded.tgt_internal_id, 1);
    assert!(decoded.directed);
}

#[test]
fn test_undirected_edge() {
    let encoded = encode_edge(1, &[2], &vec![], 5, 6, false);
    let decoded = decode_edge(&encoded);
    assert!(!decoded.directed);
    assert_eq!(decoded.src_internal_id, 5);
    assert_eq!(decoded.tgt_internal_id, 6);
}

#[test]
fn test_nested_null_roundtrip() {
    // Null inside a list and inside a record both round-trip via the
    // VALUE_TYPE_NULL tag; positional alignment is preserved.
    let inner_record = PropValue::Record(vec![
        (40, PropValue::Int(1)),
        (41, PropValue::Null),
        (42, PropValue::Int(3)),
    ]);
    let props = vec![(
        30,
        PropValue::List(vec![PropValue::Int(7), PropValue::Null, inner_record]),
    )];
    let encoded = encode_node(1, &[], &props);
    let (decoded, _) = decode_node(&encoded);
    assert_eq!(decoded.props, props);
}

#[test]
fn floats_are_kept_by_their_bits() {
    let props = vec![(3, PropValue::Float((-0.0f64).to_bits()))];
    let encoded = encode_node(1, &[], &props);
    assert_eq!(decode_node(&encoded).0.props, props);
}

#[test]
fn cut_records_are_not_read() {
    let props = vec![(7, PropValue::List(vec![PropValue::Int(1)]))];
    let encoded = encode_edge(99, &[4], &props, 0, 1, true);
    assert!(read_edge(&encoded).is_some());
    for n in 0..encoded.len() {
        assert!(read_edge(&encoded[..n]).is_none(), "cut at {n}");
    }
    let node = encode_node(99, &[4], &props);
    for n in 0..node.len() {
        assert!(read_node(&node[..n]).is_none(), "cut at {n}");
    }
}
