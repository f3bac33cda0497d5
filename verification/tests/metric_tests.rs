use frogql::vector::metric::{cmp_dist, is_less, Metric};

#[test]
fn tags_round_trip() {
    for m in [Metric::L2Sq, Metric::Cosine, Metric::Ip] {
        assert_eq!(Metric::from_u8(m.as_u8()), Some(m));
        assert_eq!(Metric::parse(m.name()), Some(m));
    }
    assert_eq!(Metric::from_u8(200), None);
    assert_eq!(Metric::parse("manhattan"), None);
}

#[test]
fn names_are_read_in_any_case() {
    assert_eq!(Metric::parse("Euclidean"), Some(Metric::L2Sq));
    assert_eq!(Metric::parse("L2"), Some(Metric::L2Sq));
    assert_eq!(Metric::parse("COS"), Some(Metric::Cosine));
    assert_eq!(Metric::parse("Dot"), Some(Metric::Ip));
    assert_eq!(Metric::parse("inner"), Some(Metric::Ip));
    assert_eq!(Metric::parse("inner "), None);
    assert_eq!(Metric::parse(""), None);
}

#[test]
fn only_cosine_needs_norms() {
    assert!(Metric::Cosine.needs_norms());
    assert!(!Metric::L2Sq.needs_norms());
    assert!(!Metric::Ip.needs_norms());
}

#[test]
fn cmp_dist_orders_nan_last() {
    let mut v = [1.0f32, f32::NAN, 0.5];
    v.sort_by(|a, b| cmp_dist(a.to_bits(), b.to_bits()));
    assert_eq!(v[0], 0.5);
    assert_eq!(v[1], 1.0);
    assert!(v[2].is_nan());
}

#[test]
fn both_orders_agree_with_those_of_numbers() {
    let all = [
        f32::NEG_INFINITY,
        -2.5,
        -f32::MIN_POSITIVE,
        -0.0,
        0.0,
        f32::MIN_POSITIVE,
        1.0,
        3.0e38,
        f32::INFINITY,
        f32::NAN,
        -f32::NAN,
    ];
    for a in all {
        for b in all {
            assert_eq!(is_less(a.to_bits(), b.to_bits()), a < b, "{a} < {b}");
            assert_eq!(cmp_dist(a.to_bits(), b.to_bits()), a.total_cmp(&b), "{a} {b}");
        }
    }
}
