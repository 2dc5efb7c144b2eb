use knipsa::benchmark::{MAX_ITERATIONS_PER_SAMPLE, measure, next_iterations};
use knipsa::boolean::boolean_op64;
use knipsa::exact::ExactPoint;
use knipsa::open64::{OpenFragment64, append_open_fragments64, split_edge_pair64};
use knipsa::open_exact::append_open_fragments;
use knipsa::rings::exact_paths_to_i64;
use knipsa::{BooleanRequest, ClipType, FillRule, Point64, signed_area2};

fn rectangle(left: i64, bottom: i64, right: i64, top: i64) -> Vec<Point64> {
    vec![Point64::new(left, bottom), Point64::new(right, bottom), Point64::new(right, top), Point64::new(left, top)]
}

fn closed(subjects: &[Vec<Point64>], clips: &[Vec<Point64>], clip_type: ClipType) -> Vec<Vec<Point64>> {
    boolean_op64(&BooleanRequest::new(subjects, clips, clip_type, FillRule::EvenOdd)).unwrap().closed
}

fn sorted_points(ring: &[Point64]) -> Vec<(i64, i64)> {
    let mut points: Vec<(i64, i64)> = ring.iter().map(|p| (p.x, p.y)).collect();
    points.sort();
    points
}

fn power_of_two(n: usize) -> bool {
    n != 0 && n & (n - 1) == 0
}

#[test]
fn xor_with_no_subject_returns_the_clip_rings() {
    let clip = rectangle(0, 0, 10, 10);
    let rings = closed(&[], &[clip.clone()], ClipType::Xor);
    assert_eq!(rings.len(), 1);
    assert_eq!(signed_area2(&rings[0]), Ok(200));
    assert_eq!(sorted_points(&rings[0]), sorted_points(&clip));
    // The same clip under a difference leaves nothing.
    assert!(closed(&[], &[clip.clone()], ClipType::Difference).is_empty());
    // A union with no clip returns the subject, turned counter-clockwise.
    let clockwise: Vec<Point64> = clip.iter().rev().copied().collect();
    let union = closed(&[clockwise], &[], ClipType::Union);
    assert_eq!(union.len(), 1);
    assert_eq!(signed_area2(&union[0]), Ok(200));
    assert_eq!(sorted_points(&union[0]), sorted_points(&clip));
}

#[test]
fn disjoint_rings_tell_difference_from_xor() {
    let subject = rectangle(0, 0, 10, 10);
    let clip = rectangle(20, 0, 30, 10);
    let difference = closed(&[subject.clone()], &[clip.clone()], ClipType::Difference);
    assert_eq!(difference.len(), 1);
    assert_eq!(sorted_points(&difference[0]), sorted_points(&subject));
    let xor = closed(&[subject.clone()], &[clip.clone()], ClipType::Xor);
    assert_eq!(xor.len(), 2);
    assert_eq!(xor.iter().map(|ring| signed_area2(ring).unwrap()).sum::<i128>(), 400);
    let union = closed(&[subject.clone()], &[clip.clone()], ClipType::Union);
    assert_eq!(union.len(), 2);
    assert!(closed(&[subject], &[clip], ClipType::Intersection).is_empty());
}

#[test]
fn split_appends_only_the_crossing_point() {
    let mut points = vec![Point64::new(0, 0), Point64::new(4, 0)];
    assert!(split_edge_pair64(Point64::new(0, 0), Point64::new(4, 0), Point64::new(2, -2), Point64::new(2, 2), &mut points));
    assert_eq!(points, vec![Point64::new(0, 0), Point64::new(4, 0), Point64::new(2, 0)]);
    // A crossing already present is not repeated.
    assert!(split_edge_pair64(Point64::new(0, 0), Point64::new(4, 0), Point64::new(2, -1), Point64::new(2, 1), &mut points));
    assert_eq!(points.len(), 3);
    // Segments that do not meet leave the points as they were.
    let mut apart = vec![Point64::new(0, 0), Point64::new(4, 0)];
    assert!(split_edge_pair64(Point64::new(0, 0), Point64::new(4, 0), Point64::new(9, -1), Point64::new(9, 1), &mut apart));
    assert_eq!(apart, vec![Point64::new(0, 0), Point64::new(4, 0)]);
    let mut parallel = vec![Point64::new(0, 0), Point64::new(4, 0)];
    assert!(split_edge_pair64(Point64::new(0, 0), Point64::new(4, 0), Point64::new(0, 1), Point64::new(4, 1), &mut parallel));
    assert_eq!(parallel.len(), 2);
    // Collinear overlap adds the endpoints that lie on the first segment.
    let mut collinear = vec![Point64::new(0, 0), Point64::new(4, 0)];
    assert!(split_edge_pair64(Point64::new(0, 0), Point64::new(4, 0), Point64::new(1, 0), Point64::new(7, 0), &mut collinear));
    assert_eq!(collinear, vec![Point64::new(0, 0), Point64::new(4, 0), Point64::new(1, 0)]);
}

#[test]
fn kept_fragments_form_maximal_runs() {
    let p = |x: i64| Point64::new(x, 0);
    let fragments = vec![
        OpenFragment64 { start: p(0), end: p(1), keep: Some(true) },
        OpenFragment64 { start: p(1), end: p(2), keep: Some(true) },
        OpenFragment64 { start: p(2), end: p(3), keep: Some(false) },
        OpenFragment64 { start: p(3), end: p(4), keep: Some(true) },
    ];
    let mut output = vec![vec![p(9), p(8)]];
    append_open_fragments64(&fragments, &mut output);
    assert_eq!(output, vec![vec![p(9), p(8)], vec![p(0), p(1), p(2)], vec![p(3), p(4)]]);

    let e = |x: i64| ExactPoint::from_point64(Point64::new(x, 0));
    let keeps = vec![Some(false), Some(true), Some(true), None, Some(true)];
    let starts = vec![e(0), e(1), e(2), e(3), e(4)];
    let ends = vec![e(1), e(2), e(3), e(4), e(5)];
    let mut exact_output = Vec::new();
    append_open_fragments(&keeps, &starts, &ends, &mut exact_output);
    assert_eq!(exact_paths_to_i64(&exact_output).unwrap(), vec![vec![p(1), p(2), p(3)], vec![p(4), p(5)]]);
}

#[test]
fn calibrated_iterations_are_powers_of_two() {
    assert!(power_of_two(MAX_ITERATIONS_PER_SAMPLE));
    assert_eq!(next_iterations(8, 0), Some(16));
    let measured = measure(|| Ok::<u64, ()>(7)).unwrap();
    assert!(power_of_two(measured.iterations_per_sample));
    assert!(measured.iterations_per_sample <= MAX_ITERATIONS_PER_SAMPLE);
}
