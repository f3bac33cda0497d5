use frogql::vector::cursor::NnCursor;
use frogql::vector::metric::Metric;
use frogql::vector::sidecar::Sidecar;
use frogql::vector::store::{Found, VectorSet, VectorStore};

type Id = u32;

fn bits(v: &[f32]) -> Vec<u32> {
    v.iter().map(|x| x.to_bits()).collect()
}

fn dot(a: &[u32], b: &[u32]) -> f32 {
    let mut acc = 0.0f32;
    for (x, y) in a.iter().zip(b.iter()) {
        acc += f32::from_bits(*x) * f32::from_bits(*y);
    }
    acc
}

/// The distance of two vectors by their bits.
fn dist(m: Metric, a: &[u32], b: &[u32]) -> u32 {
    let d = match m {
        Metric::L2Sq => {
            let mut acc = 0.0f32;
            for (x, y) in a.iter().zip(b.iter()) {
                let d = f32::from_bits(*x) - f32::from_bits(*y);
                acc += d * d;
            }
            acc
        }
        Metric::Cosine => {
            let (na, nb) = (dot(a, a).sqrt(), dot(b, b).sqrt());
            if na == 0.0 || nb == 0.0 {
                1.0
            } else {
                1.0 - dot(a, b) / (na * nb)
            }
        }
        Metric::Ip => -dot(a, b),
    };
    d.to_bits()
}

fn set_of(metric: Metric, ids: Vec<u32>, data: Vec<f32>, dim: usize) -> VectorSet {
    VectorSet::from_sidecar(Sidecar {
        attr: "emb".to_string(),
        dim,
        metric,
        fingerprint: 7,
        ids,
        data: bits(&data),
        hnsw: None,
    })
}

/// Four points on a line at x = 0, 1, 2, 3, owned by nodes 10..40.
fn line() -> VectorSet {
    set_of(
        Metric::L2Sq,
        vec![10, 20, 30, 40],
        vec![0.0, 0.0, 1.0, 0.0, 2.0, 0.0, 3.0, 0.0],
        2,
    )
}

fn drain<C: NnCursor>(mut c: C) -> Vec<(Id, f32)> {
    let mut out = Vec::new();
    while let Some(e) = c.next() {
        out.push((e.0, f32::from_bits(e.1)));
    }
    out
}

fn cursor(s: &VectorSet, q: &[f32], use_index: bool) -> Vec<(Id, f32)> {
    let q = bits(q);
    drain(s.cursor(&q, use_index, |i: usize| dist(s.metric(), &q, s.row_at(i))))
}

fn cursor_over(s: &VectorSet, q: &[f32], candidates: &[Id]) -> Vec<(Id, f32)> {
    let q = bits(q);
    drain(s.cursor_over(&q, candidates, &|i: usize| {
        dist(s.metric(), &q, s.row_at(i))
    }))
}

#[test]
fn row_lookup_is_by_node_id_not_row_index() {
    let s = line();
    assert_eq!(s.row(20), Some(&bits(&[1.0, 0.0])[..]));
    assert_eq!(s.row_index(30), Some(2));
    assert_eq!(s.row(25), None, "a node with no vector is absent");
}

#[test]
fn cursor_walks_the_whole_attribute_in_distance_order() {
    let s = line();
    let q = [0.0, 0.0];
    let got = cursor(&s, &q, false);
    assert_eq!(
        got.iter().map(|e| e.0).collect::<Vec<_>>(),
        vec![10, 20, 30, 40]
    );
    assert_eq!(got[0].1, 0.0);
    assert_eq!(got[3].1, 9.0, "squared distance, not euclidean");
}

#[test]
fn cursor_over_restricts_to_the_candidate_set() {
    let s = line();
    let q = [0.0, 0.0];
    let got = cursor_over(&s, &q, &[40, 20]);
    assert_eq!(got.iter().map(|e| e.0).collect::<Vec<_>>(), vec![20, 40]);
}

#[test]
fn cursor_over_drops_candidates_without_vectors() {
    let s = line();
    let q = [0.0, 0.0];
    let got = cursor_over(&s, &q, &[999, 30]);
    assert_eq!(got.iter().map(|e| e.0).collect::<Vec<_>>(), vec![30]);
}

#[test]
fn a_dimension_mismatch_yields_an_empty_cursor_and_an_error() {
    let s = line();
    let q = [0.0, 0.0, 0.0];
    assert!(s.validate_query(&bits(&q)).is_err());
    assert!(cursor(&s, &q, false).is_empty());
    assert!(cursor_over(&s, &q, &[10]).is_empty());
    assert_eq!(
        s.validate_query(&bits(&q)),
        Err("vector attribute `emb` has dimension 2, query vector has 3".to_string())
    );
    assert_eq!(s.validate_query(&bits(&[0.0, 1.0])), Ok(()));
}

#[test]
fn cosine_precomputes_norms_and_ranks_by_direction() {
    // Same direction, wildly different magnitude: cosine must rank
    // the long parallel vector ahead of the short orthogonal one.
    let s = set_of(Metric::Cosine, vec![1, 2], vec![100.0, 0.0, 0.0, 1.0], 2);
    let q = [1.0, 0.0];
    let got = cursor(&s, &q, false);
    assert_eq!(got[0].0, 1);
    assert!(got[0].1.abs() < 1e-6);
    assert!((got[1].1 - 1.0).abs() < 1e-6);
}

#[test]
fn dist_to_is_none_for_a_node_without_a_vector() {
    let s = line();
    let q = bits(&[0.0, 0.0]);
    let f = |i: usize| dist(Metric::L2Sq, &q, s.row_at(i));
    assert_eq!(s.dist_to(&f, 20), Some(1.0f32.to_bits()));
    assert_eq!(s.dist_to(&f, 21), None);
}

#[test]
fn candidates_are_ranked_with_ties_by_id() {
    let s = line();
    let q = bits(&[1.5, 0.0]);
    let got = s.rank_candidates(&q, &[30, 20, 40, 20, 7], &|i: usize| {
        dist(Metric::L2Sq, &q, s.row_at(i))
    });
    let near = 0.25f32.to_bits();
    assert_eq!(
        got,
        vec![
            (20, near),
            (20, near),
            (30, near),
            (40, 2.25f32.to_bits())
        ]
    );
}

#[test]
fn an_attribute_tells_what_it_holds() {
    let s = line();
    assert_eq!(s.attr(), "emb");
    assert_eq!(s.dim(), 2);
    assert_eq!(s.metric(), Metric::L2Sq);
    assert_eq!(s.fingerprint(), 7);
    assert_eq!(s.len(), 4);
    assert!(!s.is_empty());
    assert!(!s.has_index());
    assert!(s.hnsw().is_none());
    assert_eq!(s.ids(), &[10, 20, 30, 40]);
    let back = VectorSet::from_sidecar(s.to_sidecar());
    assert_eq!(back.to_sidecar(), s.to_sidecar());
}

#[test]
fn store_hides_sets_once_disabled() {
    let mut store = VectorStore::empty();
    store.insert(line());
    assert!(store.get("emb").is_some());
    assert_eq!(store.attrs(), vec!["emb"]);

    store.disable();
    assert!(store.get("emb").is_none(), "DML must switch vectors off");
    assert_eq!(store.attrs(), vec!["emb"], "diagnostics still see it");
    assert!(!store.is_enabled());
}

fn one_row(attr: &str, fingerprint: u64) -> Sidecar {
    Sidecar {
        attr: attr.to_string(),
        dim: 1,
        metric: Metric::L2Sq,
        fingerprint,
        ids: vec![1],
        data: bits(&[0.0]),
        hnsw: None,
    }
}

fn found(attr: &str, contents: Result<Vec<u8>, String>) -> Found {
    Found {
        attr: attr.to_string(),
        path: Sidecar::path_for("t.gdb", attr),
        contents,
    }
}

#[test]
fn store_open_skips_a_fingerprint_mismatch() {
    let good = one_row("good", 42);
    let stale = one_row("stale", 43);
    let files = vec![
        found("good", Ok(good.encode())),
        found("stale", Ok(stale.encode())),
    ];
    let (store, warnings) = VectorStore::open(&files, 42);
    assert_eq!(store.attrs(), vec!["good"]);
    assert_eq!(warnings.len(), 1);
    assert!(warnings[0].contains("different graph"), "{}", warnings[0]);
    assert_eq!(
        warnings[0],
        "vector sidecar `t.gdb.vec.stale` was built for a different graph \
         (fingerprint 0x2b vs 0x2a); skipping. Rebuild it with vec_build."
    );
}

#[test]
fn store_open_warns_of_each_file_it_skips() {
    let mut cut = one_row("cut", 42).encode();
    cut.truncate(10);
    let files = vec![
        found("renamed", Ok(one_row("other", 42).encode())),
        found("cut", Ok(cut)),
        found("gone", Err("no such file".to_string())),
    ];
    let (store, warnings) = VectorStore::open(&files, 42);
    assert!(store.is_empty());
    assert!(store.is_enabled());
    assert_eq!(
        warnings,
        vec![
            "vector sidecar `t.gdb.vec.renamed` declares attribute `other` but is named for \
             `renamed`; skipping."
                .to_string(),
            "vector sidecar `t.gdb.vec.cut`: t.gdb.vec.cut: truncated sidecar: wanted 4 bytes at \
             offset 8, 2 left"
                .to_string(),
            "vector sidecar `t.gdb.vec.gone`: no such file".to_string(),
        ]
    );
}

#[test]
fn store_open_on_a_db_with_no_sidecars_is_empty_and_quiet() {
    let (store, warnings) = VectorStore::open(&vec![], 0);
    assert!(store.is_empty());
    assert!(warnings.is_empty());
}
