use knipsa::arrangement::{Edge, edges_intersect, sort_paths, sort_unique};
use knipsa::rational::Rational;
use knipsa::exact::ExactPoint;
use knipsa::geometry::point_on_segment;
use knipsa::open64::{divide_exact, point_on_segment64, sort_points_on_segment64};
use knipsa::overlay::{DirectedEdge, compare_angle, paths_are_simple_and_disjoint, sets_have_segment_contact};
use knipsa::rings::{exact_paths_to_i64, stitch_directed_edges};
use knipsa::boolean::boolean_op64;
use knipsa::{BooleanRequest, ClipType, ComplexityLimits, FillRule, Point64, difference, intersection, union, xor};

fn exact(x: i64, y: i64) -> ExactPoint {
    ExactPoint::from_point64(Point64::new(x, y))
}

fn edge(a: (i64, i64), b: (i64, i64)) -> Edge {
    Edge::new(exact(a.0, a.1), exact(b.0, b.1))
}

fn exact_path(points: &[(i64, i64)]) -> Vec<ExactPoint> {
    points.iter().map(|&(x, y)| exact(x, y)).collect()
}

fn directed(a: (i64, i64), b: (i64, i64)) -> DirectedEdge {
    DirectedEdge { start: exact(a.0, a.1), end: exact(b.0, b.1) }
}

fn square(x: i64, y: i64, size: i64) -> Vec<Point64> {
    vec![Point64::new(x, y), Point64::new(x + size, y), Point64::new(x + size, y + size), Point64::new(x, y + size)]
}

fn on_some_edge(point: Point64, paths: &[Vec<Point64>]) -> bool {
    paths.iter().any(|path| {
        (0..path.len()).any(|m| point_on_segment(point, path[m], path[(m + 1) % path.len()]))
    })
}

#[test]
fn crossing_edges_intersect() {
    assert!(edges_intersect(&edge((0, 0), (4, 4)), &edge((0, 4), (4, 0))));
}

#[test]
fn edges_meeting_only_at_a_shared_end_do_not_intersect() {
    assert!(!edges_intersect(&edge((0, 0), (4, 0)), &edge((4, 0), (4, 4))));
}

#[test]
fn an_end_touching_the_inside_of_another_edge_intersects() {
    assert!(edges_intersect(&edge((0, 0), (4, 0)), &edge((2, 0), (2, 3))));
}

#[test]
fn edges_on_one_line_count_as_intersecting() {
    assert!(edges_intersect(&edge((0, 0), (1, 0)), &edge((5, 0), (6, 0))));
    assert!(!edges_intersect(&edge((0, 0), (1, 0)), &edge((0, 1), (1, 1))));
}

#[test]
fn separated_edges_do_not_intersect() {
    assert!(!edges_intersect(&edge((0, 0), (1, 1)), &edge((5, 0), (6, 3))));
}

#[test]
fn simple_separated_rings_are_accepted() {
    let paths = vec![exact_path(&[(0, 0), (4, 0), (4, 4)]), exact_path(&[(10, 10), (12, 10), (12, 12)])];
    assert!(paths_are_simple_and_disjoint(&paths));
}

#[test]
fn a_bow_tie_is_not_simple() {
    let paths = vec![exact_path(&[(0, 0), (4, 4), (4, 0), (0, 4)])];
    assert!(!paths_are_simple_and_disjoint(&paths));
}

#[test]
fn rings_with_touching_boxes_are_not_disjoint() {
    let paths = vec![exact_path(&[(0, 0), (4, 0), (4, 4)]), exact_path(&[(4, 4), (8, 4), (8, 8)])];
    assert!(!paths_are_simple_and_disjoint(&paths));
}

#[test]
fn short_paths_are_ignored_by_the_simplicity_check() {
    let paths = vec![exact_path(&[(0, 0), (4, 4)]), exact_path(&[(0, 0), (4, 0), (4, 4)])];
    assert!(paths_are_simple_and_disjoint(&paths));
}

#[test]
fn rings_sharing_a_collinear_run_have_segment_contact() {
    let subjects = vec![exact_path(&[(0, 0), (4, 0), (4, 4), (0, 4)])];
    let clips = vec![exact_path(&[(4, 1), (8, 1), (8, 3), (4, 3)])];
    assert!(sets_have_segment_contact(&subjects, &clips));
}

#[test]
fn rings_meeting_at_a_point_have_no_segment_contact() {
    let subjects = vec![exact_path(&[(0, 0), (4, 0), (4, 4), (0, 4)])];
    let clips = vec![exact_path(&[(4, 4), (8, 4), (8, 8), (4, 8)])];
    assert!(!sets_have_segment_contact(&subjects, &clips));
    assert!(!sets_have_segment_contact(&subjects, &[]));
}

#[test]
fn directions_are_ordered_by_angle_then_length() {
    assert_eq!(compare_angle(&exact(1, 0), &exact(0, 1)), -1);
    assert_eq!(compare_angle(&exact(0, -1), &exact(-1, 1)), 1);
    assert_eq!(compare_angle(&exact(1, 1), &exact(2, 2)), -1);
    assert_eq!(compare_angle(&exact(-3, 0), &exact(-3, 0)), 0);
    assert_eq!(compare_angle(&exact(-1, 0), &exact(0, -1)), -1);
}

#[test]
fn point_on_segment64_reports_overflow() {
    let far = Point64::new(i64::MAX, i64::MAX);
    let near = Point64::new(i64::MIN, i64::MIN);
    assert_eq!(point_on_segment64(Point64::new(1, 1), Point64::new(0, 0), Point64::new(2, 2)), Some(true));
    assert_eq!(point_on_segment64(Point64::new(3, 3), Point64::new(0, 0), Point64::new(2, 2)), Some(false));
    assert_eq!(point_on_segment64(far, near, Point64::new(i64::MIN, i64::MAX)), None);
}

#[test]
fn divide_exact_only_divides_exactly() {
    assert_eq!(divide_exact(12, -4), Some(-3));
    assert_eq!(divide_exact(-12, -4), Some(3));
    assert_eq!(divide_exact(13, 4), None);
    assert_eq!(divide_exact(i128::MIN, 1), None);
}

#[test]
fn points_on_a_segment_are_sorted_and_deduplicated() {
    let points = vec![Point64::new(4, 0), Point64::new(0, 0), Point64::new(2, 0), Point64::new(4, 0)];
    let sorted = sort_points_on_segment64(&points, Point64::new(0, 0), Point64::new(4, 0));
    assert_eq!(sorted, vec![Point64::new(0, 0), Point64::new(2, 0), Point64::new(4, 0)]);
    let reversed = sort_points_on_segment64(&points, Point64::new(4, 0), Point64::new(0, 0));
    assert_eq!(reversed, vec![Point64::new(4, 0), Point64::new(2, 0), Point64::new(0, 0)]);
}

#[test]
fn stitched_rings_follow_the_directed_edges() {
    let edges = vec![directed((4, 4), (0, 4)), directed((0, 0), (4, 0)), directed((0, 4), (0, 0)), directed((4, 0), (4, 4))];
    let rings = stitch_directed_edges(&edges).unwrap();
    assert_eq!(rings.len(), 1);
    let ring = exact_paths_to_i64(&rings).unwrap();
    assert_eq!(ring[0], square(0, 0, 4));
}

#[test]
fn open_chains_of_directed_edges_fail_to_stitch() {
    let edges = vec![directed((0, 0), (4, 0)), directed((4, 0), (4, 4))];
    assert!(stitch_directed_edges(&edges).is_err());
}

#[test]
fn result_vertices_lie_on_input_edges() {
    let subjects = vec![square(0, 0, 10)];
    let clips = vec![vec![Point64::new(10, 2), Point64::new(18, 10), Point64::new(10, 18), Point64::new(2, 10)]];
    let inputs: Vec<Vec<Point64>> = subjects.iter().chain(clips.iter()).cloned().collect();
    for result in [
        intersection(&subjects, &clips).unwrap(),
        union(&subjects, &clips).unwrap(),
        difference(&subjects, &clips).unwrap(),
        xor(&subjects, &clips).unwrap(),
    ] {
        assert!(!result.is_empty());
        for ring in &result {
            for &point in ring {
                assert!(on_some_edge(point, &inputs));
            }
        }
    }
}

fn on_open_line(point: Point64, line: &[Point64]) -> bool {
    (1..line.len()).any(|m| point_on_segment(point, line[m - 1], line[m]))
}

#[test]
fn open_results_lie_along_a_single_input_line() {
    let lines = vec![
        vec![Point64::new(-5, 5), Point64::new(15, 5), Point64::new(15, 20)],
        vec![Point64::new(3, -4), Point64::new(3, 14)],
    ];
    let clips = vec![square(0, 0, 10)];
    for clip_type in [ClipType::Intersection, ClipType::Difference, ClipType::Union, ClipType::Xor] {
        let request = BooleanRequest {
            closed_subjects: &[],
            open_subjects: &lines,
            clips: &clips,
            clip_type,
            fill_rule: FillRule::EvenOdd,
            limits: ComplexityLimits::default_limits(),
        };
        let output = boolean_op64(&request).unwrap();
        assert!(!output.open.is_empty());
        for piece in &output.open {
            assert!(lines.iter().any(|line| piece.iter().all(|&point| on_open_line(point, line))));
        }
    }
}

#[test]
fn sorted_parameters_rise_strictly() {
    let values = vec![
        Rational::from_i128(3, 4),
        Rational::from_i128(1, 2),
        Rational::from_i128(2, 4),
        Rational::from_i128(0, 1),
        Rational::from_i128(-6, -8),
    ];
    let sorted = sort_unique(&values);
    assert_eq!(sorted.len(), 3);
    assert!(sorted[0].equals(&Rational::from_i128(0, 1)));
    assert!(sorted[1].equals(&Rational::from_i128(1, 2)));
    assert!(sorted[2].equals(&Rational::from_i128(3, 4)));
}

#[test]
fn sorted_paths_come_in_lexicographic_order() {
    let paths = vec![
        exact_path(&[(1, 0), (0, 0)]),
        exact_path(&[(0, 0), (2, 0), (1, 1)]),
        exact_path(&[(0, 0), (2, 0)]),
    ];
    let sorted = sort_paths(paths, 2);
    assert_eq!(sorted.len(), 3);
    assert_eq!(sorted[0].len(), 2);
    assert!(sorted[0][1].equals(&exact(2, 0)));
    assert_eq!(sorted[1].len(), 3);
    assert!(sorted[2][0].equals(&exact(1, 0)));
}

#[test]
fn stitched_rings_without_area_are_dropped() {
    let edges = vec![directed((0, 0), (1, 0)), directed((1, 0), (2, 0)), directed((2, 0), (0, 0))];
    let rings = stitch_directed_edges(&edges).unwrap();
    assert!(rings.is_empty());
}
