use frogql::vector::byte_reader::{ByteReader, SidecarError};
use frogql::vector::cursor::NnCursor;
use frogql::vector::hnsw::Hnsw;
use frogql::vector::hnsw_build::{HnswParams, Rng};
use frogql::vector::hnsw_cursor::{HnswCursor, DEFAULT_EF_SEARCH};
use frogql::vector::hnsw_memory::{sum_rows, RowRoom};
use frogql::vector::metric::Metric;
use frogql::vector::sidecar::Sidecar;
use frogql::vector::store::VectorSet;

fn sample() -> Hnsw {
    Hnsw {
        m: 8,
        m0: 16,
        ef_construction: 64,
        entry: 1,
        levels: vec![
            vec![vec![1, 2]],
            vec![vec![0, 2], vec![2]],
            vec![vec![0, 1]],
        ],
    }
}

#[test]
fn hnsw_encode_decode_round_trips() {
    let h = sample();
    let mut bytes = Vec::new();
    h.encode(&mut bytes);
    let mut rd = ByteReader::new(&bytes);
    let back = Hnsw::decode(&mut rd).expect("decode");
    assert_eq!(back, h);
    assert_eq!(rd.remaining(), 0, "decode must consume exactly its bytes");
}

#[test]
fn empty_graph_round_trips() {
    let h = Hnsw::default();
    let mut bytes = Vec::new();
    h.encode(&mut bytes);
    let mut rd = ByteReader::new(&bytes);
    assert_eq!(Hnsw::decode(&mut rd).expect("decode"), h);
}

#[test]
fn max_level_reads_the_deepest_stack() {
    assert_eq!(sample().max_level(), 1);
    assert_eq!(Hnsw::default().max_level(), 0);
}

#[test]
fn neighbours_are_empty_off_the_end() {
    let h = sample();
    assert_eq!(h.neighbours(0, 0), &[1, 2]);
    assert_eq!(h.neighbours(0, 1), &[] as &[u32]);
    assert_eq!(h.neighbours(99, 0), &[] as &[u32]);
}

#[test]
fn validate_accepts_a_consistent_graph() {
    assert!(sample().validate(3).is_ok());
}

#[test]
fn validate_rejects_a_row_count_mismatch() {
    assert!(sample().validate(4).is_err());
    assert_eq!(
        sample().validate(4),
        Err(SidecarError::RowCount { rows: 3, count: 4 })
    );
}

#[test]
fn validate_rejects_an_out_of_range_neighbour() {
    let mut h = sample();
    h.levels[0][0][1] = 99;
    assert!(h.validate(3).is_err());
    assert_eq!(
        h.validate(3),
        Err(SidecarError::Neighbour {
            neighbour: 99,
            row: 0,
            layer: 0,
            count: 3
        })
    );
}

#[test]
fn validate_rejects_an_out_of_range_entry() {
    let mut h = sample();
    h.entry = 7;
    assert!(h.validate(3).is_err());
    assert_eq!(
        h.validate(3),
        Err(SidecarError::Entry { entry: 7, count: 3 })
    );
}

#[test]
fn decoding_a_cut_graph_says_where_it_ends() {
    let mut bytes = Vec::new();
    sample().encode(&mut bytes);
    let cut = &bytes[..bytes.len() - 2];
    let mut rd = ByteReader::new(cut);
    assert_eq!(
        Hnsw::decode(&mut rd).unwrap_err(),
        SidecarError::Truncated {
            wanted: 8,
            offset: bytes.len() - 8,
            left: 6
        }
    );
    let mut rd = ByteReader::new(&bytes[..9]);
    assert_eq!(
        Hnsw::decode(&mut rd).unwrap_err(),
        SidecarError::Truncated {
            wanted: 4,
            offset: 8,
            left: 1
        }
    );
}

#[test]
fn the_generator_gives_known_numbers() {
    let mut r = Rng::new(1);
    let first = r.next_u64();
    // One step of xorshift64* from 1.
    let mut x: u64 = 1;
    x ^= x >> 12;
    x ^= x << 25;
    x ^= x >> 27;
    assert_eq!(r.state, x);
    assert_eq!(first, x.wrapping_mul(0x2545_F491_4F6C_DD1D));
    assert_eq!(first, 5180492295206395165);
    assert_eq!(Rng::new(0).state, 0x9E37_79B9_7F4A_7C15);
}

// -- build + cursor ------------------------------------------------

/// Uniform in `(0, 1]`, so `ln` never sees zero.
fn next_unit(rng: &mut Rng) -> f64 {
    ((rng.next_u64() >> 11) as f64 + 1.0) / 9_007_199_254_740_992.0
}

fn bits(v: &[f32]) -> Vec<u32> {
    v.iter().map(|x| x.to_bits()).collect()
}

fn l2sq(a: &[u32], b: &[u32]) -> u32 {
    let mut acc = 0.0f32;
    for (x, y) in a.iter().zip(b.iter()) {
        let d = f32::from_bits(*x) - f32::from_bits(*y);
        acc += d * d;
    }
    acc.to_bits()
}

/// `n` points spread over `dim` dimensions from a fixed seed, owned
/// by node ids `1..=n` so a row index never accidentally equals its
/// node id.
fn random_set(n: usize, dim: usize, seed: u64) -> VectorSet {
    let mut rng = Rng::new(seed);
    let data: Vec<f32> = (0..n * dim)
        .map(|_| (next_unit(&mut rng) as f32) * 2.0 - 1.0)
        .collect();
    let ids: Vec<u32> = (1..=n as u32).collect();
    VectorSet::new("emb".to_string(), dim, Metric::L2Sq, 0, ids, bits(&data))
}

/// The heights of the rows: `floor(-ln(U) / ln(m))`.
fn heights(n: usize, params: &HnswParams) -> Vec<usize> {
    let mut rng = Rng::new(params.seed);
    let ml = 1.0 / (params.m.max(2) as f64).ln();
    (0..n)
        .map(|_| (-next_unit(&mut rng).ln() * ml).floor() as usize)
        .collect()
}

fn build(set: &VectorSet, params: HnswParams) -> Hnsw {
    let levels = heights(set.len(), &params);
    Hnsw::build(params, &levels, &|a: usize, b: usize| {
        l2sq(set.row_at(a), set.row_at(b))
    })
}

fn drain<C: NnCursor>(mut c: C) -> Vec<(u32, f32)> {
    let mut out = Vec::new();
    while let Some((id, d)) = c.next() {
        out.push((id, f32::from_bits(d)));
    }
    out
}

fn neighbours_of(set: &VectorSet, q: &[f32], use_index: bool) -> Vec<(u32, f32)> {
    let q = bits(q);
    drain(set.cursor(&q, use_index, |row: usize| l2sq(&q, set.row_at(row))))
}

#[test]
fn build_on_an_empty_set_is_an_empty_graph() {
    let set = VectorSet::new("e".to_string(), 2, Metric::L2Sq, 0, vec![], vec![]);
    let h = build(&set, HnswParams::default());
    assert!(h.is_empty());
    assert!(h.validate(0).is_ok());
}

#[test]
fn build_on_a_single_row_is_valid_and_navigable() {
    let set = VectorSet::new(
        "e".to_string(),
        2,
        Metric::L2Sq,
        0,
        vec![5],
        bits(&[1.0, 2.0]),
    );
    let h = build(&set, HnswParams::default());
    assert!(h.validate(1).is_ok());
    let set = set.with_hnsw(h);
    let got = neighbours_of(&set, &[0.0, 0.0], true);
    assert_eq!(got.len(), 1);
    assert_eq!(got[0].0, 5);
}

#[test]
fn build_produces_a_structurally_valid_graph() {
    let set = random_set(200, 8, 1);
    let h = build(&set, HnswParams::default());
    assert!(h.validate(200).is_ok());
    // No node may link to itself, and every node must have at least
    // one layer-0 link or it is unreachable.
    for i in 0..200 {
        assert!(
            !h.neighbours(i, 0).contains(&(i as u32)),
            "row {i} links to itself"
        );
        assert!(!h.neighbours(i, 0).is_empty(), "row {i} is isolated");
    }
}

#[test]
fn build_respects_the_degree_cap() {
    let params = HnswParams {
        m: 4,
        ef_construction: 32,
        seed: 3,
    };
    let set = random_set(300, 6, 2);
    let h = build(&set, params);
    for i in 0..300 {
        for l in 0..h.levels[i].len() {
            let cap = if l == 0 { h.m0 } else { h.m } as usize;
            assert!(
                h.levels[i][l].len() <= cap,
                "row {i} layer {l} has {} links, cap {}",
                h.levels[i][l].len(),
                cap
            );
        }
    }
}

#[test]
fn build_is_deterministic_for_a_fixed_seed() {
    let set = random_set(150, 4, 9);
    let a = build(&set, HnswParams::default());
    let b = build(&set, HnswParams::default());
    assert_eq!(a, b, "a benchmark needs a reproducible graph");
}

#[test]
fn build_raises_small_parameters() {
    let set = random_set(3, 2, 1);
    let h = build(
        &set,
        HnswParams {
            m: 0,
            ef_construction: 0,
            seed: 1,
        },
    );
    assert_eq!((h.m, h.m0, h.ef_construction), (2, 4, 2));
}

#[test]
fn cursor_emits_distinct_rows_and_terminates() {
    let set = random_set(120, 5, 4);
    let h = build(&set, HnswParams::default());
    let set = set.with_hnsw(h);
    let q = vec![0.0f32; 5];
    let got = neighbours_of(&set, &q, true);

    let mut seen = std::collections::HashSet::new();
    for (id, _) in &got {
        assert!(seen.insert(*id), "row {id} emitted twice");
    }
    // Layer 0 is built connected here, so the walk covers everything.
    assert_eq!(got.len(), 120);
}

#[test]
fn cursor_finds_the_true_nearest_neighbour() {
    let set = random_set(400, 8, 11);
    let h = build(&set, HnswParams::default());
    let set = set.with_hnsw(h);
    let q: Vec<f32> = (0..8).map(|i| i as f32 * 0.05).collect();

    let exact = neighbours_of(&set, &q, false);
    let approx = neighbours_of(&set, &q, true);
    assert_eq!(approx[0].0, exact[0].0, "top-1 must match the oracle");
}

#[test]
fn cursor_recall_at_10_is_high() {
    let set = random_set(1000, 12, 21);
    let h = build(&set, HnswParams::default());
    let set = set.with_hnsw(h);

    let mut rng = Rng::new(777);
    let mut hits = 0usize;
    let mut total = 0usize;
    for _ in 0..20 {
        let q: Vec<f32> = (0..12)
            .map(|_| (next_unit(&mut rng) as f32) * 2.0 - 1.0)
            .collect();
        let exact: Vec<u32> = neighbours_of(&set, &q, false)
            .into_iter()
            .take(10)
            .map(|e| e.0)
            .collect();
        let approx: std::collections::HashSet<u32> = neighbours_of(&set, &q, true)
            .into_iter()
            .take(10)
            .map(|e| e.0)
            .collect();
        hits += exact.iter().filter(|id| approx.contains(id)).count();
        total += exact.len();
    }
    let recall = hits as f64 / total as f64;
    assert!(recall > 0.9, "recall@10 was {recall:.3}, expected > 0.9");
}

#[test]
fn cursor_expands_far_fewer_nodes_than_a_full_scan_for_the_top_k() {
    let set = random_set(2000, 12, 33);
    let h = build(&set, HnswParams::default());
    let set = set.with_hnsw(h);
    let q = bits(&vec![0.25f32; 12]);

    let mut c = set.cursor(&q, true, |row: usize| l2sq(&q, set.row_at(row)));
    for _ in 0..10 {
        assert!(c.next().is_some());
    }
    // The cost of the first k neighbours is sublinear in the corpus.
    assert!(
        c.expanded() < 200,
        "expanded {} nodes for the top 10 of 2000",
        c.expanded()
    );
}

#[test]
fn a_narrow_lookahead_trades_accuracy_for_expansions() {
    // The `ef` knob has to actually do something, or the accuracy of
    // the head of the stream is an accident rather than a setting.
    let set = random_set(400, 8, 11);
    let h = build(&set, HnswParams::default());
    let set = set.with_hnsw(h);
    let hnsw = set.hnsw().expect("built");
    let q: Vec<f32> = (0..8).map(|i| i as f32 * 0.05).collect();
    let qb = bits(&q);

    let dist = |row: usize| l2sq(&qb, set.row_at(row));
    let mut narrow = HnswCursor::with_ef(set.ids(), hnsw, dist, 1);
    let mut wide = HnswCursor::with_ef(set.ids(), hnsw, dist, DEFAULT_EF_SEARCH);
    let (n0, w0) = (narrow.next().unwrap(), wide.next().unwrap());

    let exact = neighbours_of(&set, &q, false);
    assert_eq!(w0.0, exact[0].0, "the default lookahead is exact here");
    assert_ne!(n0.0, exact[0].0, "ef=1 is expected to miss");
    assert!(narrow.expanded() < wide.expanded());
}

#[test]
fn cursor_round_trips_through_the_sidecar_encoding() {
    let set = random_set(100, 4, 5);
    let h = build(&set, HnswParams::default());
    let set = set.with_hnsw(h);
    let bytes = set.to_sidecar().encode();
    let back = VectorSet::from_sidecar(Sidecar::decode(&bytes).expect("decode"));

    let q = vec![0.1f32; 4];
    assert_eq!(
        neighbours_of(&back, &q, true),
        neighbours_of(&set, &q, true)
    );
}

#[test]
fn a_row_without_links_is_never_emitted() {
    // Rows 0 and 1 are linked; row 2 is linked with nothing.
    let h = Hnsw {
        m: 2,
        m0: 4,
        ef_construction: 2,
        entry: 0,
        levels: vec![vec![vec![1]], vec![vec![0]], vec![vec![]]],
    };
    let set = VectorSet::new(
        "e".to_string(),
        1,
        Metric::L2Sq,
        0,
        vec![10, 20, 30],
        bits(&[0.0, 1.0, 2.0]),
    )
    .with_hnsw(h);
    let got = neighbours_of(&set, &[2.0], true);
    assert_eq!(got, vec![(20, 1.0), (10, 4.0)]);
    let exact = neighbours_of(&set, &[2.0], false);
    assert_eq!(exact, vec![(30, 0.0), (20, 1.0), (10, 4.0)]);
}

#[test]
fn every_cut_of_a_graph_is_refused() {
    let mut bytes = Vec::new();
    sample().encode(&mut bytes);
    for n in 0..bytes.len() {
        assert!(Hnsw::decode(&mut ByteReader::new(&bytes[..n])).is_err(), "cut at {n}");
    }
    // What follows a graph is left unread.
    bytes.extend_from_slice(&[1, 2, 3]);
    let mut rd = ByteReader::new(&bytes);
    assert_eq!(Hnsw::decode(&mut rd).unwrap(), sample());
    assert_eq!(rd.remaining(), 3);
}

#[test]
fn built_lists_name_each_row_once_and_on_its_layer() {
    let set = random_set(200, 4, 5);
    let h = build(
        &set,
        HnswParams {
            m: 4,
            ef_construction: 32,
            seed: 7,
        },
    );
    let top = h.levels.iter().map(|layers| layers.len()).max().unwrap();
    let first = h.levels.iter().position(|layers| layers.len() == top);
    assert_eq!(first, Some(h.entry as usize));
    for (i, layers) in h.levels.iter().enumerate() {
        for (l, list) in layers.iter().enumerate() {
            for (k, n) in list.iter().enumerate() {
                assert!(h.levels[*n as usize].len() > l, "row {i} layer {l}");
                assert!(!list[..k].contains(n), "row {i} layer {l} repeats {n}");
            }
        }
    }
}

#[test]
fn memory_counts_headers_and_room() {
    let rows = vec![
        RowRoom { room: 2, lists: vec![16, 8] },
        RowRoom { room: 1, lists: vec![3] },
    ];
    assert_eq!(sum_rows(&rows, 24), 5 * 24 + 27 * 4);
    let huge = vec![RowRoom { room: usize::MAX, lists: vec![] }];
    assert_eq!(sum_rows(&huge, 24), usize::MAX);

    assert_eq!(Hnsw::empty().heap_bytes(), 0);
    let h = sample();
    let header = std::mem::size_of::<Vec<u32>>();
    let want: usize = h
        .levels
        .iter()
        .map(|row| {
            header
                + row.capacity() * header
                + row.iter().map(|l| l.capacity() * 4).sum::<usize>()
        })
        .sum();
    assert_eq!(h.heap_bytes(), want);
    let mut roomy = sample();
    roomy.levels[0][0].reserve_exact(100);
    assert!(roomy.heap_bytes() >= want + 90 * 4);
}
