use knipsa::exact::ExactPoint;
use knipsa::open64::{clip_segment64, try_clip_open_paths64};
use knipsa::overlay::short_circuit;
use knipsa::{ClipType, FillRule, PathKind, Point64, trim_collinear64};

fn rectangle(left: i64, bottom: i64, right: i64, top: i64) -> Vec<Point64> {
    vec![Point64::new(left, bottom), Point64::new(right, bottom), Point64::new(right, top), Point64::new(left, top)]
}

fn rectangle_edges(left: i64, bottom: i64, right: i64, top: i64) -> Vec<(Point64, Point64)> {
    let ring = rectangle(left, bottom, right, top);
    (0..4).map(|k| (ring[k], ring[(k + 1) % 4])).collect()
}

#[test]
fn segments_are_cut_at_every_boundary_crossing() {
    let a = Point64::new(0, 0);
    let b = Point64::new(10, 0);
    let clips = [rectangle(3, -1, 5, 1)];
    let boundary = rectangle_edges(3, -1, 5, 1);
    let pieces = clip_segment64(a, b, &boundary, &[], &clips, ClipType::Intersection, FillRule::EvenOdd).unwrap();
    let ends: Vec<(Point64, Point64, Option<bool>)> = pieces.iter().map(|f| (f.start, f.end, f.keep)).collect();
    assert_eq!(
        ends,
        vec![
            (Point64::new(0, 0), Point64::new(3, 0), Some(false)),
            (Point64::new(3, 0), Point64::new(5, 0), Some(true)),
            (Point64::new(5, 0), Point64::new(10, 0), Some(false)),
        ]
    );
    // With nothing to cut against, the segment comes back whole.
    let whole = clip_segment64(a, b, &Vec::new(), &[], &[], ClipType::Difference, FillRule::EvenOdd).unwrap();
    assert_eq!(whole.len(), 1);
    assert_eq!((whole[0].start, whole[0].end, whole[0].keep), (a, b, Some(true)));
}

#[test]
fn unclipped_open_lines_come_back_normalized_and_whole() {
    let line = vec![Point64::new(0, 0), Point64::new(1, 0), Point64::new(1, 0), Point64::new(2, 0), Point64::new(2, 5)];
    let single = vec![Point64::new(7, 7), Point64::new(7, 7)];
    let open = [line, single];
    let kept = try_clip_open_paths64(&open, &[], &[], ClipType::Difference, FillRule::EvenOdd).unwrap();
    assert_eq!(kept, vec![vec![Point64::new(0, 0), Point64::new(1, 0), Point64::new(2, 0), Point64::new(2, 5)]]);
    let none = try_clip_open_paths64(&open, &[], &[], ClipType::Intersection, FillRule::EvenOdd).unwrap();
    assert!(none.is_empty());
    // Outside a union the closed subjects do not matter.
    let with_subject =
        try_clip_open_paths64(&open, &[rectangle(0, -1, 1, 1)], &[], ClipType::Difference, FillRule::EvenOdd).unwrap();
    assert_eq!(with_subject, kept);
}

#[test]
fn certified_open_clipping_cuts_at_clip_boundaries() {
    let open = [vec![Point64::new(-5, 5), Point64::new(25, 5)]];
    let clips = [rectangle(0, 0, 10, 10)];
    let inside = try_clip_open_paths64(&open, &[], &clips, ClipType::Intersection, FillRule::EvenOdd).unwrap();
    assert_eq!(inside, vec![vec![Point64::new(0, 5), Point64::new(10, 5)]]);
    let outside = try_clip_open_paths64(&open, &[], &clips, ClipType::Difference, FillRule::EvenOdd).unwrap();
    assert_eq!(
        outside,
        vec![vec![Point64::new(-5, 5), Point64::new(0, 5)], vec![Point64::new(10, 5), Point64::new(25, 5)]]
    );
}

#[test]
fn trimming_is_idempotent_and_keeps_open_ends() {
    let open = vec![Point64::new(0, 0), Point64::new(1, 0), Point64::new(2, 0), Point64::new(2, 3), Point64::new(2, 6)];
    let once = trim_collinear64(&open, PathKind::Open).unwrap();
    assert_eq!(once, vec![Point64::new(0, 0), Point64::new(2, 0), Point64::new(2, 6)]);
    assert_eq!(trim_collinear64(&once, PathKind::Open).unwrap(), once);
    assert_eq!(once[0], open[0]);
    assert_eq!(once[once.len() - 1], open[open.len() - 1]);
}

#[test]
fn cheap_case_rings_start_at_their_smallest_point_in_order() {
    let exact = |ring: Vec<Point64>| -> Vec<ExactPoint> { ring.into_iter().map(ExactPoint::from_point64).collect() };
    let subject = exact(vec![Point64::new(30, 0), Point64::new(40, 0), Point64::new(40, 10), Point64::new(30, 10)]);
    let clip = exact(vec![Point64::new(10, 10), Point64::new(0, 10), Point64::new(0, 0), Point64::new(10, 0)]);
    let rings = short_circuit(&[subject], &[clip], ClipType::Union, FillRule::EvenOdd).unwrap();
    let as_points: Vec<Vec<Point64>> = knipsa::rings::exact_paths_to_i64(&rings).unwrap();
    assert_eq!(
        as_points,
        vec![
            vec![Point64::new(0, 0), Point64::new(10, 0), Point64::new(10, 10), Point64::new(0, 10)],
            vec![Point64::new(30, 0), Point64::new(40, 0), Point64::new(40, 10), Point64::new(30, 10)],
        ]
    );
}
