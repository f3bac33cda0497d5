use frogql::vector::byte_reader::{ByteReader, SidecarError};
use frogql::vector::hnsw::Hnsw;
use frogql::vector::metric::Metric;
use frogql::vector::sidecar::{fingerprint, Sidecar};

fn bits(v: &[f32]) -> Vec<u32> {
    v.iter().map(|x| x.to_bits()).collect()
}

fn sample() -> Sidecar {
    Sidecar {
        attr: "emb".to_string(),
        dim: 2,
        metric: Metric::L2Sq,
        fingerprint: 0xdead_beef,
        ids: vec![1, 4, 9],
        data: bits(&[0.0, 0.0, 1.0, 1.0, 2.0, -2.0]),
        hnsw: None,
    }
}

#[test]
fn sidecar_encode_decode_round_trips() {
    let s = sample();
    assert_eq!(Sidecar::decode(&s.encode()).expect("decode"), s);
    assert_eq!(s.count(), 3);
}

#[test]
fn encode_decode_round_trips_with_hnsw() {
    let mut s = sample();
    s.hnsw = Some(Hnsw {
        m: 4,
        m0: 8,
        ef_construction: 32,
        entry: 0,
        levels: vec![vec![vec![1, 2]], vec![vec![0]], vec![vec![0]]],
    });
    assert_eq!(Sidecar::decode(&s.encode()).expect("decode"), s);
}

#[test]
fn empty_sidecar_round_trips() {
    let s = Sidecar {
        attr: "e".to_string(),
        dim: 0,
        metric: Metric::Cosine,
        fingerprint: 0,
        ids: vec![],
        data: vec![],
        hnsw: None,
    };
    assert_eq!(Sidecar::decode(&s.encode()).expect("decode"), s);
}

#[test]
fn the_bytes_of_a_sidecar_are_laid_out_in_order() {
    let s = Sidecar {
        attr: "é".to_string(),
        dim: 1,
        metric: Metric::Ip,
        fingerprint: 0x0102_0304_0506_0708,
        ids: vec![5],
        data: bits(&[1.0]),
        hnsw: None,
    };
    let mut want: Vec<u8> = b"FGVEC1\0\0".to_vec();
    want.extend_from_slice(&1u32.to_le_bytes());
    want.extend_from_slice(&1u32.to_le_bytes());
    want.extend_from_slice(&1u32.to_le_bytes());
    want.extend_from_slice(&[2, 0, 0, 0]);
    want.extend_from_slice(&0x0102_0304_0506_0708u64.to_le_bytes());
    want.extend_from_slice(&2u32.to_le_bytes());
    want.extend_from_slice("é".as_bytes());
    want.extend_from_slice(&5u32.to_le_bytes());
    want.extend_from_slice(&1.0f32.to_le_bytes());
    assert_eq!(s.encode(), want);
}

#[test]
fn decode_rejects_bad_magic() {
    let mut bytes = sample().encode();
    bytes[0] = b'X';
    assert!(Sidecar::decode(&bytes).is_err());
    assert_eq!(Sidecar::decode(&bytes), Err(SidecarError::BadMagic));
}

#[test]
fn decode_rejects_a_future_version() {
    let mut bytes = sample().encode();
    bytes[8..12].copy_from_slice(&99u32.to_le_bytes());
    assert!(Sidecar::decode(&bytes).is_err());
    assert_eq!(Sidecar::decode(&bytes), Err(SidecarError::Version(99)));
}

#[test]
fn decode_rejects_an_unknown_metric() {
    let mut bytes = sample().encode();
    bytes[20] = 200;
    assert!(Sidecar::decode(&bytes).is_err());
    assert_eq!(Sidecar::decode(&bytes), Err(SidecarError::UnknownMetric(200)));
}

#[test]
fn decode_rejects_truncation() {
    let bytes = sample().encode();
    assert!(Sidecar::decode(&bytes[..bytes.len() - 4]).is_err());
}

#[test]
fn every_cut_of_a_sidecar_is_reported() {
    let mut s = sample();
    s.hnsw = Some(Hnsw {
        m: 4,
        m0: 8,
        ef_construction: 32,
        entry: 0,
        levels: vec![vec![vec![1]], vec![vec![0]], vec![vec![]]],
    });
    let bytes = s.encode();
    for n in 0..bytes.len() {
        match Sidecar::decode(&bytes[..n]) {
            Err(SidecarError::Truncated {
                wanted,
                offset,
                left,
            }) => {
                assert_eq!(offset + left, n);
                assert!(wanted > left);
            }
            other => panic!("cut at {n}: {other:?}"),
        }
    }
    assert_eq!(Sidecar::decode(&bytes), Ok(s));
}

#[test]
fn decode_rejects_unsorted_ids() {
    let mut s = sample();
    s.ids = vec![9, 4, 1];
    assert!(Sidecar::decode(&s.encode()).is_err());
    assert_eq!(
        Sidecar::decode(&s.encode()),
        Err(SidecarError::IdsNotAscending)
    );
}

#[test]
fn decode_rejects_duplicate_ids() {
    let mut s = sample();
    s.ids = vec![1, 1, 9];
    assert!(Sidecar::decode(&s.encode()).is_err());
}

#[test]
fn decode_rejects_rows_of_no_dimension() {
    let mut s = sample();
    s.dim = 0;
    s.data = vec![];
    assert_eq!(Sidecar::decode(&s.encode()), Err(SidecarError::NoDimension));
}

#[test]
fn decode_rejects_a_name_that_is_no_text() {
    let mut bytes = sample().encode();
    bytes[36] = 0xff;
    assert_eq!(Sidecar::decode(&bytes), Err(SidecarError::BadName));
}

#[test]
fn decode_rejects_rows_that_no_memory_holds() {
    // As many rows and components as the header can say: the rows alone do
    // not fit what is left.
    let mut bytes = sample().encode();
    bytes[12..16].copy_from_slice(&u32::MAX.to_le_bytes());
    bytes[16..20].copy_from_slice(&u32::MAX.to_le_bytes());
    assert!(matches!(
        Sidecar::decode(&bytes),
        Err(SidecarError::Truncated { .. })
    ));
    // No rows of any dimension are fine.
    bytes[16..20].copy_from_slice(&0u32.to_le_bytes());
    assert_eq!(Sidecar::decode(&bytes).map(|s| s.count()), Ok(0));
}

#[test]
fn decode_rejects_an_out_of_range_hnsw_neighbour() {
    let mut s = sample();
    s.hnsw = Some(Hnsw {
        m: 4,
        m0: 8,
        ef_construction: 32,
        entry: 0,
        levels: vec![vec![vec![77]], vec![vec![0]], vec![vec![0]]],
    });
    assert!(Sidecar::decode(&s.encode()).is_err());
}

#[test]
fn path_for_appends_the_infix() {
    let p = Sidecar::path_for("/tmp/movies.gdb", "emb");
    assert_eq!(p, "/tmp/movies.gdb.vec.emb");
}

#[test]
fn path_for_handles_a_bare_filename() {
    let p = Sidecar::path_for("movies.gdb", "emb");
    assert_eq!(p, "movies.gdb.vec.emb");
}

#[test]
fn attr_from_path_is_the_inverse_of_path_for() {
    let db = "/tmp/movies.gdb";
    let p = Sidecar::path_for(db, "imgEmb");
    assert_eq!(Sidecar::attr_from_path(db, &p).as_deref(), Some("imgEmb"));
}

#[test]
fn attr_from_path_rejects_foreign_files() {
    let db = "/tmp/movies.gdb";
    assert_eq!(Sidecar::attr_from_path(db, "/tmp/movies.gdb"), None);
    assert_eq!(Sidecar::attr_from_path(db, "/tmp/other.gdb.vec.emb"), None);
    assert_eq!(Sidecar::attr_from_path(db, "/tmp/movies.gdb.vec."), None);
}

#[test]
fn discover_lists_sidecars_by_attribute() {
    let files: Vec<String> = ["m.gdb", "m.gdb.vec.z", "n.gdb.vec.b", "m.gdb.vec.a"]
        .iter()
        .map(|s| s.to_string())
        .collect();
    assert_eq!(
        Sidecar::discover("m.gdb", &files),
        vec![
            ("a".to_string(), "m.gdb.vec.a".to_string()),
            ("z".to_string(), "m.gdb.vec.z".to_string()),
        ]
    );
}

#[test]
fn discover_on_a_missing_directory_is_empty() {
    // A directory that cannot be listed has no files.
    assert!(Sidecar::discover("/nonexistent-dir-xyz/t.gdb", &vec![]).is_empty());
}

#[test]
fn fingerprint_separates_different_shapes() {
    assert_eq!(fingerprint(10, 20), fingerprint(10, 20));
    assert_ne!(fingerprint(10, 20), fingerprint(20, 10));
    assert_ne!(fingerprint(10, 20), fingerprint(10, 21));
}

#[test]
fn the_fingerprint_is_fnv_over_both_counts() {
    let mut h: u64 = 0xcbf2_9ce4_8422_2325;
    for b in 10u64
        .to_le_bytes()
        .iter()
        .chain(20u64.to_le_bytes().iter())
    {
        h ^= *b as u64;
        h = h.wrapping_mul(0x0000_0100_0000_01b3);
    }
    assert_eq!(fingerprint(10, 20), h);
}

#[test]
fn the_reader_reads_each_width() {
    let bytes = [1u8, 2, 0, 3, 0, 0, 0, 4, 0, 0, 0, 0, 0, 0, 0, 9, 8, 5, 0, 0, 0];
    let mut rd = ByteReader::new(&bytes);
    assert_eq!(rd.u8(), Ok(1));
    assert_eq!(rd.u16(), Ok(2));
    assert_eq!(rd.u32(), Ok(3));
    assert_eq!(rd.u64(), Ok(4));
    assert_eq!(rd.bytes(2), Ok(&[9u8, 8][..]));
    assert_eq!(rd.u32_vec(1), Ok(vec![5]));
    assert_eq!(rd.remaining(), 0);
    assert_eq!(
        rd.u8(),
        Err(SidecarError::Truncated {
            wanted: 1,
            offset: 21,
            left: 0
        })
    );
}

#[test]
fn errors_are_worded() {
    let cases = [
        (
            SidecarError::Truncated {
                wanted: 4,
                offset: 10,
                left: 3,
            },
            "truncated sidecar: wanted 4 bytes at offset 10, 3 left",
        ),
        (
            SidecarError::BadMagic,
            "not a froGQL vector sidecar (bad magic)",
        ),
        (
            SidecarError::Version(99),
            "sidecar version 99 is not supported (expected 1)",
        ),
        (SidecarError::UnknownMetric(200), "unknown metric tag 200"),
        (
            SidecarError::NoDimension,
            "sidecar declares dim 0 with a non-empty row set",
        ),
        (
            SidecarError::IdsNotAscending,
            "sidecar ids must be strictly ascending",
        ),
        (
            SidecarError::RowCount { rows: 3, count: 4 },
            "hnsw adjacency covers 3 rows but the sidecar holds 4",
        ),
        (
            SidecarError::Entry { entry: 7, count: 3 },
            "hnsw entry point 7 out of range (count 3)",
        ),
        (
            SidecarError::Neighbour {
                neighbour: 77,
                row: 0,
                layer: 1,
                count: 3,
            },
            "hnsw neighbour 77 of row 0 at layer 1 is out of range (count 3)",
        ),
    ];
    for (e, want) in cases {
        assert_eq!(e.message(), want);
    }
    assert!(!SidecarError::BadName.message().is_empty());
    assert!(!SidecarError::Oversized.message().is_empty());
}
