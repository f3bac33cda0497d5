use frogql::vector::cursor::{BruteForceCursor, EmptyCursor, NnCursor, NnStream};

type Id = u32;

fn near(id: Id, d: f32) -> Option<(Id, u32)> {
    Some((id, d.to_bits()))
}

fn cursor_of(pairs: &[(Id, f32)]) -> BruteForceCursor {
    BruteForceCursor::from_unsorted(pairs.iter().map(|p| (p.0, p.1.to_bits())).collect())
}

#[test]
fn brute_force_emits_in_distance_order() {
    let mut c = cursor_of(&[(7, 3.0), (2, 1.0), (5, 2.0)]);
    assert_eq!(c.next(), near(2, 1.0));
    assert_eq!(c.next(), near(5, 2.0));
    assert_eq!(c.next(), near(7, 3.0));
    assert_eq!(c.next(), None);
    assert_eq!(c.next(), None, "exhausted cursor stays exhausted");
}

#[test]
fn brute_force_breaks_ties_by_id() {
    let mut c = cursor_of(&[(9, 1.0), (3, 1.0), (6, 1.0)]);
    assert_eq!(c.next(), near(3, 1.0));
    assert_eq!(c.next(), near(6, 1.0));
    assert_eq!(c.next(), near(9, 1.0));
}

#[test]
fn brute_force_reports_scan_width() {
    let c = cursor_of(&[(1, 1.0), (2, 2.0)]);
    assert_eq!(c.expanded(), 2);
}

#[test]
fn empty_cursor_yields_nothing() {
    assert_eq!(EmptyCursor.next(), None);
}

#[test]
fn stream_replays_the_prefix_without_re_driving_the_cursor() {
    let mut s = NnStream::new(cursor_of(&[(1, 1.0), (2, 2.0), (3, 3.0)]));

    assert_eq!(s.at(0), near(1, 1.0));
    assert_eq!(s.at(1), near(2, 2.0));
    assert_eq!(s.extends, 2);

    // Second visit re-reads the same ranks: no further cursor work.
    assert_eq!(s.at(0), near(1, 1.0));
    assert_eq!(s.at(1), near(2, 2.0));
    assert_eq!(s.extends, 2, "prefix replay must not extend the cursor");
    assert_eq!(s.high_water(), 2);
}

#[test]
fn stream_extends_only_past_the_high_water_mark() {
    let mut s = NnStream::new(cursor_of(&[(1, 1.0), (2, 2.0), (3, 3.0)]));
    assert_eq!(s.at(2), near(3, 3.0));
    assert_eq!(s.extends, 3, "reaching rank 2 pulls three entries");
    assert_eq!(s.at(0), near(1, 1.0));
    assert_eq!(s.extends, 3);
}

#[test]
fn stream_reports_end_and_stays_ended() {
    let mut s = NnStream::new(cursor_of(&[(1, 1.0)]));
    assert_eq!(s.at(0), near(1, 1.0));
    assert_eq!(s.at(1), None);
    assert_eq!(s.at(1), None);
    assert_eq!(s.extends, 1, "exhaustion is remembered, not re-probed");
}

#[test]
fn stream_counts_inversions() {
    // A deliberately unsorted cursor stands in for approximate HNSW
    // emission order.
    let pairs: Vec<(Id, u32)> = [(1, 1.0f32), (2, 5.0), (3, 2.0)]
        .iter()
        .map(|p| (p.0, p.1.to_bits()))
        .collect();
    let mut s = NnStream::new(BruteForceCursor::from_sorted(pairs));
    assert_eq!(s.at(2), near(3, 2.0));
    assert_eq!(s.inversions(), 1);
}

#[test]
fn stream_counts_reads_and_scanned_rows() {
    let mut s = NnStream::new(cursor_of(&[(1, 1.0), (2, 2.0)]));
    assert_eq!(s.at(0), near(1, 1.0));
    assert_eq!(s.at(5), None);
    assert_eq!(s.replays, 1);
    assert_eq!(s.expanded(), 2);
    assert_eq!(s.inversions(), 0);
}
