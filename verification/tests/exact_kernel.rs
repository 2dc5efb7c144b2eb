use knipsa::arrangement::{
    Bounds, Edge, canonicalize_ring, edges_intersect, exact_area2, is_unit_interval, parameter_on_segment,
    paths_bbox, point_at, push_unique, split_edge_pair,
};
use knipsa::exact::point_on_segment_exact;
use knipsa::overlay::{
    DirectedEdge, compare_angle, direct_paths, paths_are_simple_and_disjoint, sets_have_segment_contact, short_circuit,
};
use knipsa::rings::exact_paths64;
use knipsa::exact::ExactPoint;
use knipsa::faces::{
    assign_face_label, build_face_cycles, paths_contain, half_edge_delta, half_edge_start, merge_atomic_edges, operation_contains,
    probe_is_clear, sample_atomic_boundary, sample_face_pair, select_atomic_boundary, split_source_edges,
    try_face_boundary,
};
use knipsa::open_exact::{clip_open_paths, exact_open_paths64};
use knipsa::overlay::{ArrangementEdge, AtomicEdge};
use knipsa::winding::WindingPair;
use knipsa::rational::Rational;
use knipsa::rings::{exact_paths_to_i64, finish_exact_boolean, run_boolean, stitch_directed_edges};
use knipsa::{ClipType, Error, FillRule, Point64, signed_area2};

type Path64 = Vec<Point64>;

fn exact_point(x: i64, y: i64) -> ExactPoint {
    ExactPoint::from_point64(Point64::new(x, y))
}

fn exact_path(points: &[(i64, i64)]) -> Vec<ExactPoint> {
    points.iter().map(|&(x, y)| exact_point(x, y)).collect()
}

fn integer_sample_epsilon() -> Rational {
    Rational::from_i128(1, 1_i128 << 120)
}

fn area_sum(paths: &[Path64]) -> i128 {
    paths.iter().map(|path| signed_area2(path).expect("test area")).sum()
}

fn rotate_to_minimum(mut points: Vec<(i64, i64)>) -> Vec<(i64, i64)> {
    if let Some((minimum, _)) = points.iter().enumerate().min_by_key(|(_, point)| *point) {
        points.rotate_left(minimum);
    }
    points
}

fn canonical_summary(paths: &[Path64]) -> Vec<(i128, Vec<(i64, i64)>)> {
    let mut summary = paths
        .iter()
        .map(|path| {
            let area = signed_area2(path).expect("test area");
            let points = path.iter().map(|point| (point.x, point.y)).collect::<Vec<_>>();
            let forward = rotate_to_minimum(points.clone());
            let mut reversed = points;
            reversed.reverse();
            let reversed = rotate_to_minimum(reversed);
            (area, if forward < reversed { forward } else { reversed })
        })
        .collect::<Vec<_>>();
    summary.sort();
    summary
}

fn noded_atomic_edges(subjects: &[Vec<ExactPoint>], clips: &[Vec<ExactPoint>]) -> Vec<AtomicEdge> {
    let mut edges = Vec::new();
    let mut owners = Vec::new();
    for (paths, subject) in [(subjects, true), (clips, false)] {
        for path in paths {
            for k in 0..path.len() {
                let start = &path[k];
                let end = &path[(k + 1) % path.len()];
                if !start.equals(end) {
                    edges.push(Edge::new(start.copy(), end.copy()));
                    owners.push(subject);
                }
            }
        }
    }
    let mut parameters: Vec<Vec<Rational>> =
        (0..edges.len()).map(|_| vec![Rational::zero(), Rational::one()]).collect();
    for first in 0..edges.len() {
        for second in first + 1..edges.len() {
            let (before, after) = parameters.split_at_mut(second);
            split_edge_pair(&edges[first], &edges[second], &mut before[first], &mut after[0]);
        }
    }
    split_source_edges(&edges, &parameters, &owners)
}

#[test]
fn exact_open_conversion_normalizes_and_filters_degenerate_paths() {
    let paths = [vec![Point64::new(1, 1)], vec![Point64::new(0, 0), Point64::new(0, 0), Point64::new(2, 3)]];
    let exact = exact_open_paths64(&paths);
    assert_eq!(exact.len(), 1);
    assert_eq!(exact_paths_to_i64(&exact).unwrap(), vec![vec![Point64::new(0, 0), Point64::new(2, 3)]]);
}

#[test]
fn exact_boolean_finish_propagates_errors_and_converts_results() {
    assert_eq!(finish_exact_boolean(Err(Error::TopologyFailure)), Err(Error::TopologyFailure));
    let exact = vec![exact_path(&[(0, 0), (1, 0), (0, 1)])];
    assert_eq!(
        finish_exact_boolean(Ok(exact)).unwrap(),
        vec![vec![Point64::new(0, 0), Point64::new(1, 0), Point64::new(0, 1)]]
    );
}

#[test]
fn exact_open_oracle_covers_operations_and_boundaries() {
    let clip = [exact_path(&[(0, 0), (10, 0), (10, 10), (0, 10)])];
    let crossing = [exact_path(&[(-5, 5), (15, 5)])];
    assert_eq!(
        exact_paths_to_i64(&clip_open_paths(&crossing, &[], &clip, ClipType::Intersection, FillRule::EvenOdd))
            .unwrap(),
        vec![vec![Point64::new(0, 5), Point64::new(10, 5)]]
    );
    for clip_type in [ClipType::Difference, ClipType::Xor] {
        assert_eq!(clip_open_paths(&crossing, &[], &clip, clip_type, FillRule::EvenOdd).len(), 2);
    }

    let closed_subject = [exact_path(&[(-10, -10), (20, -10), (20, 20), (-10, 20)])];
    assert!(clip_open_paths(&crossing, &closed_subject, &clip, ClipType::Union, FillRule::EvenOdd).is_empty());

    let boundary = [exact_path(&[(0, 0), (5, 0), (5, 5)])];
    assert_eq!(
        exact_paths_to_i64(&clip_open_paths(&boundary, &[], &clip, ClipType::Intersection, FillRule::EvenOdd))
            .unwrap(),
        vec![vec![Point64::new(0, 0), Point64::new(5, 0), Point64::new(5, 5)]]
    );
}

#[test]
fn exact_overlay_ignores_duplicate_clip_vertices() {
    let subjects = [exact_path(&[(0, 0), (10, 0), (10, 10), (0, 10)])];
    let clips = [exact_path(&[(5, -5), (5, -5), (15, -5), (15, 5), (5, 5)])];
    let result = run_boolean(&subjects, &clips, ClipType::Intersection, FillRule::EvenOdd)
        .expect("a duplicate vertex must not create a zero-length arrangement edge");
    assert!(!result.is_empty());
}

#[test]
fn certified_face_overlay_handles_diagonal_self_crossings() {
    let epsilon = integer_sample_epsilon();
    let bow_tie = exact_path(&[(0, 0), (20, 20), (0, 20), (20, 0)]);
    let subjects = [bow_tie];
    let atoms = noded_atomic_edges(&subjects, &[]);
    let boundary = try_face_boundary(&atoms, &subjects, &[], ClipType::Union, FillRule::EvenOdd, &epsilon)
        .expect("a noded diagonal bow-tie has a certified face overlay");
    let oracle = sample_atomic_boundary(&atoms, &subjects, &[], ClipType::Union, FillRule::EvenOdd, &epsilon);
    let result = exact_paths_to_i64(&stitch_directed_edges(&boundary).expect("certified boundary closes"))
        .expect("integer bow-tie result");
    let oracle = exact_paths_to_i64(&stitch_directed_edges(&oracle).expect("oracle boundary closes"))
        .expect("integer oracle result");
    assert_eq!(canonical_summary(&result), canonical_summary(&oracle));
    assert_eq!(result.len(), 2);
    assert_eq!(area_sum(&result), 400);
}

#[test]
fn certified_face_overlay_handles_shared_vertices() {
    let epsilon = integer_sample_epsilon();
    let left = exact_path(&[(0, 0), (-10, -1), (1, 10)]);
    let right = exact_path(&[(0, 0), (10, 1), (-1, -10)]);
    let subjects = [left];
    let clips = [right];
    let atoms = noded_atomic_edges(&subjects, &clips);
    let boundary = try_face_boundary(&atoms, &subjects, &clips, ClipType::Xor, FillRule::EvenOdd, &epsilon)
        .expect("a shared-vertex fan has a certified face overlay");
    let certified = exact_paths_to_i64(&stitch_directed_edges(&boundary).expect("shared-vertex boundary closes"))
        .expect("integer shared-vertex result");
    let oracle_boundary = sample_atomic_boundary(&atoms, &subjects, &clips, ClipType::Xor, FillRule::EvenOdd, &epsilon);
    let oracle = exact_paths_to_i64(&stitch_directed_edges(&oracle_boundary).expect("oracle boundary closes"))
        .expect("integer oracle result");
    assert_eq!(canonical_summary(&certified), canonical_summary(&oracle));
    assert_eq!(certified.len(), 2);
    assert_eq!(certified.iter().map(|path| signed_area2(path).unwrap().abs()).sum::<i128>(), 198);
}

#[test]
fn certified_face_overlay_handles_high_valence_vertex_fans() {
    let epsilon = integer_sample_epsilon();
    let wedges = vec![
        exact_path(&[(0, 0), (10, -1), (10, 1)]),
        exact_path(&[(0, 0), (9, 7), (7, 9)]),
        exact_path(&[(0, 0), (1, 10), (-1, 10)]),
        exact_path(&[(0, 0), (-7, 9), (-9, 7)]),
        exact_path(&[(0, 0), (-10, 1), (-10, -1)]),
        exact_path(&[(0, 0), (-9, -7), (-7, -9)]),
        exact_path(&[(0, 0), (-1, -10), (1, -10)]),
        exact_path(&[(0, 0), (7, -9), (9, -7)]),
    ];
    let atoms = noded_atomic_edges(&wedges, &[]);
    let arrangement = merge_atomic_edges(&atoms).expect("wedge arrangement");
    let origin = exact_point(0, 0);
    assert_eq!(arrangement.iter().filter(|edge| edge.start.equals(&origin) || edge.end.equals(&origin)).count(), 16);
    let boundary = try_face_boundary(&atoms, &wedges, &[], ClipType::Union, FillRule::EvenOdd, &epsilon)
        .expect("the high-valence vertex fan is certifiable");
    let oracle = sample_atomic_boundary(&atoms, &wedges, &[], ClipType::Union, FillRule::EvenOdd, &epsilon);
    let result = exact_paths_to_i64(&stitch_directed_edges(&boundary).expect("wedge boundary closes"))
        .expect("integer wedge result");
    let oracle = exact_paths_to_i64(&stitch_directed_edges(&oracle).expect("wedge oracle closes"))
        .expect("integer wedge oracle");
    assert_eq!(canonical_summary(&result), canonical_summary(&oracle));
}

fn arrangement_edge(start: (i64, i64), end: (i64, i64), subject_delta: i128, clip_delta: i128) -> ArrangementEdge {
    ArrangementEdge { start: exact_point(start.0, start.1), end: exact_point(end.0, end.1), subject_delta, clip_delta }
}

fn atomic_edge(start: (i64, i64), end: (i64, i64), subject: bool) -> AtomicEdge {
    AtomicEdge { start: exact_point(start.0, start.1), end: exact_point(end.0, end.1), subject }
}

#[test]
fn certified_face_overlay_rejects_inconsistent_face_samples() {
    let epsilon = integer_sample_epsilon();
    let subjects = [exact_path(&[(0, 0), (10, 0), (10, 10), (0, 10)])];
    let mislabeled_subject = vec![arrangement_edge((0, 0), (10, 0), 2, 0)];
    assert!(sample_face_pair(0, &mislabeled_subject, &subjects, &[], &epsilon).is_none());
    assert!(half_edge_start(&mislabeled_subject, 1).equals(&exact_point(10, 0)));

    let mislabeled_clip = vec![arrangement_edge((0, 0), (10, 0), 1, 1)];
    assert!(sample_face_pair(0, &mislabeled_clip, &subjects, &[], &epsilon).is_none());
}

#[test]
fn certified_face_overlay_refines_boundary_probes_and_empty_cycles() {
    let coarse = Rational::from_i128(1, 2);
    let zero_delta = vec![arrangement_edge((0, 0), (10, 0), 0, 0)];
    let boundary_subjects = [exact_path(&[(0, 5), (10, 5), (10, 15), (0, 15)])];
    assert!(sample_face_pair(0, &zero_delta, &boundary_subjects, &[], &coarse).is_some());

    let blocked_probe = vec![arrangement_edge((0, 0), (10, 0), 0, 0), arrangement_edge((0, 2), (10, 2), 0, 0)];
    assert!(sample_face_pair(0, &blocked_probe, &[], &[], &coarse).is_some());

    assert_eq!(build_face_cycles(&Vec::new()), Some((Vec::new(), Vec::new())));
    assert!(split_source_edges(&Vec::new(), &Vec::new(), &Vec::new()).is_empty());
    assert!(noded_atomic_edges(&[], &[]).is_empty());
    let duplicate_clip = [exact_path(&[(0, 0), (0, 0), (10, 0), (0, 10)])];
    let clip_atoms = noded_atomic_edges(&[], &duplicate_clip);
    assert_eq!(clip_atoms.len(), 3);
    assert!(clip_atoms.iter().all(|edge| !edge.subject));
    assert!(clip_atoms.iter().all(|edge| !edge.start.equals(&edge.end)));

    let boundary = exact_point(0, 5);
    for (clip_type, expected) in [
        (ClipType::Intersection, false),
        (ClipType::Union, true),
        (ClipType::Difference, true),
        (ClipType::Xor, true),
    ] {
        assert_eq!(operation_contains(&boundary, &boundary_subjects, &[], clip_type, FillRule::EvenOdd), expected);
    }
    assert!(!operation_contains(&exact_point(5, 10), &[], &boundary_subjects, ClipType::Intersection, FillRule::EvenOdd));
}

#[test]
fn certified_face_overlay_fails_closed_to_exact_sampling() {
    let epsilon = integer_sample_epsilon();
    assert!(try_face_boundary(&Vec::new(), &[], &[], ClipType::Union, FillRule::EvenOdd, &epsilon)
        .is_some_and(|boundary| boundary.is_empty()));

    // A single bridge has the same face on both sides: the face selector
    // rejects it and the sampled boundary is used instead.
    let bridge = vec![atomic_edge((0, 0), (10, 0), true)];
    assert!(try_face_boundary(&bridge, &[], &[], ClipType::Union, FillRule::EvenOdd, &epsilon).is_none());
    assert!(select_atomic_boundary(&bridge, &[], &[], ClipType::Union, FillRule::EvenOdd, &epsilon).is_empty());

    let subject = [exact_path(&[(0, 0), (10, 0), (10, 10), (0, 10)])];
    let both_ways = vec![atomic_edge((0, 0), (10, 0), true), atomic_edge((10, 0), (0, 0), true)];
    let sampled = sample_atomic_boundary(&both_ways, &subject, &[], ClipType::Union, FillRule::EvenOdd, &epsilon);
    assert_eq!(sampled.len(), 1);
    assert!(sampled[0].start.equals(&exact_point(0, 0)));
    assert!(sampled[0].end.equals(&exact_point(10, 0)));

    let arrangement = vec![arrangement_edge((0, 0), (10, 0), 1, 0)];
    assert_eq!(half_edge_delta(&arrangement, 1), Some(WindingPair { subject: -1, clip: 0 }));
    let subject_overflow = vec![arrangement_edge((0, 0), (10, 0), i128::MIN, 0)];
    assert!(half_edge_delta(&subject_overflow, 1).is_none());
    let clip_overflow = vec![arrangement_edge((0, 0), (10, 0), 0, i128::MIN)];
    assert!(half_edge_delta(&clip_overflow, 1).is_none());
    assert!(sample_face_pair(0, &arrangement, &[], &[], &epsilon).is_none());

    let crossing = vec![arrangement_edge((0, 0), (10, 0), 1, 0), arrangement_edge((5, -5), (5, 5), 0, 1)];
    assert!(!probe_is_clear(&exact_point(5, -1), &exact_point(5, 1), 1, &crossing));

    let mut labels = vec![None];
    let mut queue = Vec::new();
    let winding = WindingPair { subject: 1, clip: 0 };
    assert!(assign_face_label(&mut labels, 0, winding, &mut queue));
    assert!(assign_face_label(&mut labels, 0, winding, &mut queue));
    assert!(!assign_face_label(&mut labels, 0, WindingPair { subject: 0, clip: 1 }, &mut queue));

    let inside_subject = exact_point(5, 5);
    let inside_clip = exact_point(25, 5);
    let subjects = [exact_path(&[(0, 0), (10, 0), (10, 10), (0, 10)])];
    let clips = [exact_path(&[(20, 0), (30, 0), (30, 10), (20, 10)])];
    assert!(!operation_contains(&inside_subject, &subjects, &clips, ClipType::Intersection, FillRule::EvenOdd));
    assert!(operation_contains(&inside_clip, &subjects, &clips, ClipType::Union, FillRule::EvenOdd));
    assert!(!operation_contains(&inside_clip, &subjects, &clips, ClipType::Difference, FillRule::EvenOdd));
}

fn exact_edge(start: (i64, i64), end: (i64, i64)) -> Edge {
    Edge::new(exact_point(start.0, start.1), exact_point(end.0, end.1))
}

fn exact_directed(start: (i64, i64), end: (i64, i64)) -> DirectedEdge {
    DirectedEdge { start: exact_point(start.0, start.1), end: exact_point(end.0, end.1) }
}

fn rectangle(left: i64, bottom: i64, right: i64, top: i64) -> Path64 {
    vec![Point64::new(left, bottom), Point64::new(right, bottom), Point64::new(right, top), Point64::new(left, top)]
}

fn bounds(min_x: i64, min_y: i64, max_x: i64, max_y: i64) -> Bounds {
    Bounds {
        min_x: Rational::from_i64(min_x),
        min_y: Rational::from_i64(min_y),
        max_x: Rational::from_i64(max_x),
        max_y: Rational::from_i64(max_y),
    }
}

fn half() -> Rational {
    Rational::from_i64(1).div(&Rational::from_i64(2))
}

#[test]
fn exercises_exact_kernel_predicates_and_fallbacks() {
    let subject = || exact_paths64(&[rectangle(0, 0, 10, 10)]);
    let clip = || exact_paths64(&[rectangle(5, 0, 15, 10)]);
    assert_eq!(exact_paths64(&[Vec::new(), vec![Point64::new(0, 0), Point64::new(1, 0)]]).len(), 0);

    assert!(short_circuit(&[], &[], ClipType::Union, FillRule::EvenOdd).is_some());
    assert!(short_circuit(&subject(), &[], ClipType::Intersection, FillRule::EvenOdd).is_some());
    assert!(short_circuit(&subject(), &[], ClipType::Difference, FillRule::EvenOdd).is_some());
    assert!(short_circuit(&subject(), &[], ClipType::Union, FillRule::EvenOdd).is_some());
    assert!(short_circuit(&subject(), &[], ClipType::Xor, FillRule::EvenOdd).is_some());
    for clip_type in [ClipType::Intersection, ClipType::Difference, ClipType::Union, ClipType::Xor] {
        assert!(short_circuit(&[], &clip(), clip_type, FillRule::EvenOdd).is_some());
    }
    assert!(short_circuit(&subject(), &clip(), ClipType::Union, FillRule::Positive).is_none());

    let disjoint = || exact_paths64(&[rectangle(20, 0, 30, 10)]);
    let vertical_disjoint = || exact_paths64(&[rectangle(0, 20, 10, 30)]);
    let reverse_vertical_disjoint = || exact_paths64(&[rectangle(0, -30, 10, -20)]);
    for clip_type in [ClipType::Intersection, ClipType::Difference, ClipType::Union, ClipType::Xor] {
        assert!(short_circuit(&subject(), &disjoint(), clip_type, FillRule::EvenOdd).is_some());
        assert!(short_circuit(&subject(), &vertical_disjoint(), clip_type, FillRule::EvenOdd).is_some());
        assert!(short_circuit(&subject(), &reverse_vertical_disjoint(), clip_type, FillRule::EvenOdd).is_some());
    }
    let invalid = || exact_path(&[(0, 0), (10, 10), (0, 10), (10, 0)]);
    assert!(short_circuit(&[invalid()], &disjoint(), ClipType::Union, FillRule::EvenOdd).is_none());
    let corner_touch = || exact_paths64(&[rectangle(10, 10, 20, 20)]);
    let edge_touch = exact_paths64(&[rectangle(10, 0, 20, 10)]);
    assert!(short_circuit(&subject(), &edge_touch, ClipType::Union, FillRule::EvenOdd).is_none());
    assert!(short_circuit(&[invalid()], &corner_touch(), ClipType::Union, FillRule::EvenOdd).is_none());
    let invalid_far = exact_path(&[(20, 20), (30, 30), (20, 30), (30, 20)]);
    assert!(short_circuit(&subject(), &[invalid_far], ClipType::Union, FillRule::EvenOdd).is_none());
    let invalid_touch = exact_path(&[(10, 10), (20, 20), (10, 20), (20, 10)]);
    assert!(short_circuit(&subject(), &[invalid_touch], ClipType::Union, FillRule::EvenOdd).is_none());
    let height_only_touch = exact_path(&[(2, 10), (8, 20), (2, 20)]);
    assert!(short_circuit(&subject(), &[height_only_touch], ClipType::Union, FillRule::EvenOdd).is_some());
    for clip_type in [ClipType::Intersection, ClipType::Difference, ClipType::Union, ClipType::Xor] {
        assert!(short_circuit(&subject(), &corner_touch(), clip_type, FillRule::EvenOdd).is_some());
    }
    assert!(sets_have_segment_contact(&subject(), &clip()));
    assert!(!sets_have_segment_contact(&subject(), &corner_touch()));

    let clockwise = exact_path(&[(0, 0), (0, 10), (10, 10), (10, 0)]);
    assert!(direct_paths(&[clockwise])[0][0].equals(&exact_point(0, 0)));
    assert!(paths_are_simple_and_disjoint(&[Vec::new()]));
    let square = || exact_path(&[(0, 0), (10, 0), (10, 10), (0, 10)]);
    assert!(paths_are_simple_and_disjoint(&[square(), Vec::new()]));
    assert!(paths_are_simple_and_disjoint(&[square(), exact_path(&[(20, 0), (30, 0), (30, 10), (20, 10)])]));
    assert!(!paths_are_simple_and_disjoint(&[square(), square()]));
    assert!(paths_bbox(&[]).is_none());
    assert!(paths_bbox(&[square(), exact_path(&[(5, 0), (15, 0), (15, 10), (5, 10)])]).is_some());
    assert!(bounds(0, 0, 1, 1).touches(&bounds(1, 1, 2, 2)));
    assert!(!bounds(0, 0, 1, 1).touches(&bounds(2, 2, 3, 3)));
    assert!(!bounds(2, 0, 3, 1).touches(&bounds(0, 0, 1, 1)));
    assert!(!bounds(0, 2, 1, 3).touches(&bounds(0, 0, 1, 1)));
    assert!(!bounds(0, 0, 1, 1).touches(&bounds(0, 2, 1, 3)));

    let crossing_first = exact_edge((0, 0), (10, 10));
    let crossing_second = exact_edge((0, 10), (10, 0));
    assert!(edges_intersect(&crossing_first, &crossing_second));
    assert!(edges_intersect(&exact_edge((0, 0), (10, 0)), &exact_edge((5, 0), (15, 0))));
    assert!(!edges_intersect(&exact_edge((0, 0), (1, 0)), &exact_edge((2, 1), (3, 1))));
    let mut first_parameters = vec![Rational::zero(), Rational::one()];
    let mut second_parameters = vec![Rational::zero(), Rational::one()];
    split_edge_pair(&crossing_first, &crossing_second, &mut first_parameters, &mut second_parameters);
    assert_eq!(first_parameters.len(), 3);
    split_edge_pair(&exact_edge((0, 0), (1, 0)), &exact_edge((0, 1), (1, 1)), &mut Vec::new(), &mut Vec::new());
    split_edge_pair(&exact_edge((0, 0), (10, 0)), &exact_edge((15, -1), (14, 1)), &mut Vec::new(), &mut Vec::new());
    split_edge_pair(&exact_edge((0, 0), (10, 0)), &exact_edge((5, 1), (4, 2)), &mut Vec::new(), &mut Vec::new());
    let mut collinear_first = vec![Rational::zero(), Rational::one()];
    let mut collinear_second = vec![Rational::zero(), Rational::one()];
    split_edge_pair(
        &exact_edge((0, 0), (10, 0)),
        &exact_edge((5, 0), (15, 0)),
        &mut collinear_first,
        &mut collinear_second,
    );
    assert_eq!(collinear_first.len(), 3);
    assert_eq!(collinear_second.len(), 3);
    assert!(parameter_on_segment(&exact_point(5, 0), &exact_point(0, 0), &exact_point(10, 0)).equals(&half()));
    assert!(parameter_on_segment(&exact_point(0, 5), &exact_point(0, 0), &exact_point(0, 10)).equals(&half()));
    assert!(point_at(&exact_point(0, 0), &exact_point(10, 10), &half()).equals(&exact_point(5, 5)));
    let mut duplicate = vec![Rational::zero()];
    push_unique(&mut duplicate, Rational::zero());
    assert_eq!(duplicate.len(), 1);
    assert!(is_unit_interval(&Rational::zero()));
    assert!(!is_unit_interval(&Rational::from_i64(2)));
    assert!(!is_unit_interval(&Rational::from_i64(-1)));
    assert!(!point_on_segment_exact(&exact_point(1, 1), &exact_point(0, 0), &exact_point(10, 0)));
    assert!(!point_on_segment_exact(&exact_point(11, 0), &exact_point(0, 0), &exact_point(10, 0)));
    assert!(point_on_segment_exact(&exact_point(5, 0), &exact_point(10, 0), &exact_point(0, 0)));

    let inside = exact_point(5, 5);
    let outside = exact_point(20, 20);
    assert!(paths_contain(&inside, &subject(), FillRule::EvenOdd));
    assert!(paths_contain(&inside, &subject(), FillRule::NonZero));
    assert!(paths_contain(&inside, &subject(), FillRule::Positive));
    assert!(!paths_contain(&inside, &subject(), FillRule::Negative));
    assert!(paths_contain(&exact_point(0, 0), &subject(), FillRule::EvenOdd));
    assert!(!paths_contain(&outside, &subject(), FillRule::EvenOdd));
    for clip_type in [ClipType::Intersection, ClipType::Union, ClipType::Difference, ClipType::Xor] {
        let _ = operation_contains(&inside, &subject(), &disjoint(), clip_type, FillRule::EvenOdd);
    }
    assert!(operation_contains(&inside, &subject(), &[], ClipType::Difference, FillRule::EvenOdd));

    assert!(stitch_directed_edges(&Vec::new()).unwrap().is_empty());
    let square_edges = vec![
        exact_directed((0, 0), (10, 0)),
        exact_directed((10, 0), (10, 10)),
        exact_directed((10, 10), (0, 10)),
        exact_directed((0, 10), (0, 0)),
    ];
    assert_eq!(stitch_directed_edges(&square_edges).unwrap().len(), 1);
    assert!(stitch_directed_edges(&vec![exact_directed((0, 0), (1, 0))]).is_err());
    let non_start_cycle =
        vec![exact_directed((0, 0), (1, 0)), exact_directed((1, 0), (2, 0)), exact_directed((2, 0), (1, 0))];
    assert!(stitch_directed_edges(&non_start_cycle).is_err());
    let collinear_cycle =
        vec![exact_directed((0, 0), (1, 0)), exact_directed((1, 0), (2, 0)), exact_directed((2, 0), (0, 0))];
    assert!(stitch_directed_edges(&collinear_cycle).unwrap().is_empty());
    let short_cycle = vec![exact_directed((0, 0), (1, 0)), exact_directed((1, 0), (0, 0))];
    assert!(stitch_directed_edges(&short_cycle).unwrap().is_empty());
    assert_eq!(compare_angle(&exact_point(1, 0), &exact_point(0, 1)), -1);
    assert_eq!(compare_angle(&exact_point(0, -1), &exact_point(1, 0)), 1);
    assert_eq!(compare_angle(&exact_point(1, 0), &exact_point(2, 0)), -1);
    assert!(exact_area2(&Vec::new()).is_zero());
    let ring = canonicalize_ring(exact_path(&[(2, 2), (0, 0), (1, 1)]));
    assert!(ring[0].equals(&exact_point(0, 0)));
    assert!(canonicalize_ring(Vec::new()).is_empty());

    assert!(run_boolean(&[vec![]], &[vec![]], ClipType::Union, FillRule::EvenOdd).unwrap().is_empty());
    assert!(run_boolean(&subject(), &clip(), ClipType::Intersection, FillRule::EvenOdd).is_ok());
    let repeated = exact_path(&[(0, 0), (0, 0), (10, 0), (10, 10)]);
    let _ = run_boolean(&[repeated], &clip(), ClipType::Union, FillRule::EvenOdd);
    assert!(exact_paths_to_i64(&vec![vec![ExactPoint { x: half(), y: Rational::from_i64(0) }]]).is_err());
    let mut reversed_rectangle = rectangle(0, 0, 10, 10);
    reversed_rectangle.reverse();
    assert!(!canonical_summary(&[rectangle(0, 0, 10, 10)]).is_empty());
    assert!(!canonical_summary(&[reversed_rectangle]).is_empty());
    assert!(rotate_to_minimum(Vec::new()).is_empty());
}

#[test]
fn exercises_rational_numeric_boundaries() {
    let left = Rational::from_i128(i128::MAX, 1);
    let right = Rational::from_i128(2, 1);
    let _ = left.add(&right);
    let _ = left.mul(&right);
    let _ = left.div(&right);
    let _ = left.compare(&right);
    assert!(Rational::zero().is_zero());
    assert!(!Rational::zero().is_positive());
    assert!(Rational::from_i64(1).is_positive());
    assert!(Rational::from_i64(-1).is_negative());
    let _ = Rational::from_i128(i128::MIN, -1);
    let empty = run_boolean(&[], &[], ClipType::Union, FillRule::EvenOdd).unwrap();
    assert!(empty.is_empty());
}

#[test]
fn merged_edges_sum_and_sort_coincident_pieces() {
    let atom = |a: (i64, i64), b: (i64, i64), subject: bool| AtomicEdge {
        start: exact_point(a.0, a.1),
        end: exact_point(b.0, b.1),
        subject,
    };
    let atoms = vec![
        atom((2, 0), (0, 0), true),
        atom((0, 0), (0, 2), true),
        atom((0, 0), (2, 0), true),
        atom((0, 2), (0, 0), false),
        atom((1, 1), (0, 0), false),
    ];
    let merged = merge_atomic_edges(&atoms).expect("merged arrangement");
    assert_eq!(merged.len(), 2);
    assert!(merged[0].start.equals(&exact_point(0, 0)) && merged[0].end.equals(&exact_point(0, 2)));
    assert_eq!((merged[0].subject_delta, merged[0].clip_delta), (1, -1));
    assert!(merged[1].start.equals(&exact_point(0, 0)) && merged[1].end.equals(&exact_point(1, 1)));
    assert_eq!((merged[1].subject_delta, merged[1].clip_delta), (0, -1));
}

#[test]
fn probes_along_an_edge_are_blocked_only_by_overlap() {
    let arrangement_edge = |a: (i64, i64), b: (i64, i64)| ArrangementEdge {
        start: exact_point(a.0, a.1),
        end: exact_point(b.0, b.1),
        subject_delta: 1,
        clip_delta: 0,
    };
    let overlapping = vec![arrangement_edge((2, 0), (6, 0))];
    assert!(!probe_is_clear(&exact_point(0, 0), &exact_point(4, 0), 7, &overlapping));
    let touching = vec![arrangement_edge((4, 0), (6, 0))];
    assert!(probe_is_clear(&exact_point(0, 0), &exact_point(4, 0), 7, &touching));
    assert!(probe_is_clear(&exact_point(0, 0), &exact_point(4, 0), 0, &overlapping));
    assert!(!probe_is_clear(&exact_point(1, 1), &exact_point(1, 1), 7, &touching));
}
