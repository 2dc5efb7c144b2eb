use knipsa::boolean::boolean_op64;
use knipsa::{
    BooleanRequest, ClipType, ComplexityLimits, Error, FillRule, Point64, PointLocation, point_in_polygon,
    signed_area2,
};

type Path64 = Vec<Point64>;

fn rectangle(left: i64, bottom: i64, right: i64, top: i64) -> Path64 {
    vec![
        Point64::new(left, bottom),
        Point64::new(right, bottom),
        Point64::new(right, top),
        Point64::new(left, top),
    ]
}

fn open_request<'a>(
    open_subjects: &'a [Path64],
    closed_subjects: &'a [Path64],
    clips: &'a [Path64],
    clip_type: ClipType,
) -> BooleanRequest<'a, Path64> {
    BooleanRequest {
        closed_subjects,
        open_subjects,
        clips,
        clip_type,
        fill_rule: FillRule::EvenOdd,
        limits: ComplexityLimits::default_limits(),
    }
}

fn request<'a>(subjects: &'a [Path64], clips: &'a [Path64], clip_type: ClipType) -> BooleanRequest<'a, Path64> {
    BooleanRequest::new(subjects, clips, clip_type, FillRule::EvenOdd)
}

fn boolean_op(request: BooleanRequest<'_, Path64>) -> Result<Vec<Path64>, Error> {
    boolean_op64(&request).map(|output| output.closed)
}

fn area_sum(paths: &[Path64]) -> i128 {
    paths.iter().map(|path| signed_area2(path).expect("test area")).sum()
}

fn rotate_to_minimum(mut points: Vec<(i64, i64)>) -> Vec<(i64, i64)> {
    if let Some((minimum, _)) = points.iter().enumerate().min_by_key(|(_, point)| *point) {
        points.rotate_left(minimum);
    }
    points
}

fn canonical_summary(paths: &[Path64]) -> Vec<(i128, Vec<(i64, i64)>)> {
    let mut summary = paths
        .iter()
        .map(|path| {
            let area = signed_area2(path).expect("test area");
            let points = path.iter().map(|point| (point.x, point.y)).collect::<Vec<_>>();
            let forward = rotate_to_minimum(points.clone());
            let mut reversed = points;
            reversed.reverse();
            let reversed = rotate_to_minimum(reversed);
            (area, if forward < reversed { forward } else { reversed })
        })
        .collect::<Vec<_>>();
    summary.sort();
    summary
}

#[test]
fn clips_open_subjects_and_keeps_outputs_separate() {
    let line = vec![Point64::new(-5, 5), Point64::new(15, 5)];
    let clip = rectangle(0, 0, 10, 10);
    let open = [line];
    let clips = [clip];

    let intersection = boolean_op64(&open_request(&open, &[], &clips, ClipType::Intersection)).unwrap();
    assert!(intersection.closed.is_empty());
    assert_eq!(intersection.open, vec![vec![Point64::new(0, 5), Point64::new(10, 5)]]);

    for clip_type in [ClipType::Difference, ClipType::Xor] {
        let result = boolean_op64(&open_request(&open, &[], &clips, clip_type)).unwrap();
        assert_eq!(
            result.open,
            vec![vec![Point64::new(-5, 5), Point64::new(0, 5)], vec![Point64::new(10, 5), Point64::new(15, 5)],]
        );
    }
}

#[test]
fn normalizes_and_discards_degenerate_open_subjects_before_clipping() {
    let clip = [rectangle(0, 0, 10, 10)];
    let open = [
        vec![Point64::new(2, 2), Point64::new(2, 2), Point64::new(8, 8)],
        vec![Point64::new(4, 4), Point64::new(4, 4)],
    ];
    let result = boolean_op64(&open_request(&open, &[], &clip, ClipType::Intersection)).unwrap();
    assert_eq!(result.closed, Vec::<Path64>::new());
    assert_eq!(result.open, vec![vec![Point64::new(2, 2), Point64::new(8, 8)]]);
}

#[test]
fn union_clips_open_subjects_against_all_closed_regions() {
    let open = [vec![Point64::new(-5, 5), Point64::new(25, 5)]];
    let closed_subjects = [rectangle(0, 0, 10, 10)];
    let clips = [rectangle(15, 0, 20, 10)];
    let result = boolean_op64(&open_request(&open, &closed_subjects, &clips, ClipType::Union)).unwrap();
    assert_eq!(result.closed.len(), 2);
    assert_eq!(
        result.open,
        vec![
            vec![Point64::new(-5, 5), Point64::new(0, 5)],
            vec![Point64::new(10, 5), Point64::new(15, 5)],
            vec![Point64::new(20, 5), Point64::new(25, 5)],
        ]
    );
}

#[test]
fn open_paths_do_not_interact_and_boundary_runs_use_adjacency() {
    let clip = rectangle(0, 0, 10, 10);
    let clips = [clip];
    let open = [
        vec![Point64::new(-5, 0), Point64::new(5, 0), Point64::new(5, 5)],
        vec![Point64::new(5, -5), Point64::new(5, 15)],
    ];
    let result = boolean_op64(&open_request(&open, &[], &clips, ClipType::Intersection)).unwrap();
    assert_eq!(result.open.len(), 2);
    assert_eq!(result.open[0], vec![Point64::new(0, 0), Point64::new(5, 0), Point64::new(5, 5)]);
    assert_eq!(result.open[1], vec![Point64::new(5, 0), Point64::new(5, 10)]);
}

#[test]
fn boundary_runs_at_open_path_ends_use_the_present_adjacent_fragment() {
    let clips = [rectangle(0, 0, 10, 10)];
    let cases = [
        (ClipType::Intersection, vec![Point64::new(0, 0), Point64::new(5, 0), Point64::new(5, 5)]),
        (ClipType::Intersection, vec![Point64::new(5, 5), Point64::new(5, 0), Point64::new(0, 0)]),
        (ClipType::Difference, vec![Point64::new(0, 0), Point64::new(5, 0), Point64::new(5, -5)]),
        (ClipType::Difference, vec![Point64::new(5, -5), Point64::new(5, 0), Point64::new(0, 0)]),
    ];
    for (clip_type, path) in cases {
        let open = [path.clone()];
        let result = boolean_op64(&open_request(&open, &[], &clips, clip_type)).unwrap();
        assert_eq!(result.open, vec![path]);
    }
}

#[test]
fn vertical_open_segments_preserve_input_direction() {
    let clips = [rectangle(0, 0, 10, 10)];
    for path in [vec![Point64::new(5, -5), Point64::new(5, 15)], vec![Point64::new(5, 15), Point64::new(5, -5)]] {
        let expected = if path[0].y < path[1].y {
            vec![Point64::new(5, 0), Point64::new(5, 10)]
        } else {
            vec![Point64::new(5, 10), Point64::new(5, 0)]
        };
        let open = [path];
        let result = boolean_op64(&open_request(&open, &[], &clips, ClipType::Intersection)).unwrap();
        assert_eq!(result.open, vec![expected]);
    }
}

#[test]
fn integer_open_falls_back_to_exact_when_i128_certificate_overflows() {
    const BOUND: i64 = 9_000_000_000_000_000_000;
    let open = [vec![Point64::new(-BOUND, 0), Point64::new(BOUND, 0)]];
    let clips = [rectangle(-BOUND, -BOUND, BOUND, BOUND)];
    let output = boolean_op64(&open_request(&open, &[], &clips, ClipType::Intersection)).unwrap();
    assert_eq!(output.open, open);
}

#[test]
fn integer_open_falls_back_when_midpoint_predicate_overflows() {
    const BOUND: i64 = 9_000_000_000_000_000_000;
    let open = [vec![Point64::new(BOUND - 1, BOUND), Point64::new(BOUND, BOUND)]];
    let clips = [vec![
        Point64::new(-BOUND, -BOUND),
        Point64::new(BOUND, -BOUND),
        Point64::new(BOUND, -BOUND + 10),
        Point64::new(-BOUND, -BOUND + 10),
    ]];
    let output = boolean_op64(&open_request(&open, &[], &clips, ClipType::Intersection)).unwrap();
    assert!(output.closed.is_empty());
    assert!(output.open.is_empty());
}

#[test]
fn all_boolean_operations_have_expected_area_and_topology() {
    let subject = rectangle(0, 0, 10, 10);
    let clip = rectangle(5, 0, 15, 10);
    let subjects = [subject.clone()];
    let clips = [clip.clone()];

    let intersection = boolean_op(request(&subjects, &clips, ClipType::Intersection)).unwrap();
    assert_eq!(area_sum(&intersection), 100);
    assert_eq!(intersection.len(), 1);
    assert_eq!(point_in_polygon(Point64::new(7, 5), &intersection[0]), Ok(PointLocation::Inside));

    let union = boolean_op(request(&subjects, &clips, ClipType::Union)).unwrap();
    assert_eq!(area_sum(&union), 300);
    assert_eq!(union.len(), 1);
    assert_eq!(point_in_polygon(Point64::new(2, 5), &union[0]), Ok(PointLocation::Inside));
    assert_eq!(point_in_polygon(Point64::new(13, 5), &union[0]), Ok(PointLocation::Inside));

    let difference = boolean_op(request(&subjects, &clips, ClipType::Difference)).unwrap();
    assert_eq!(area_sum(&difference), 100);
    assert_eq!(difference.len(), 1);
    assert_eq!(point_in_polygon(Point64::new(2, 5), &difference[0]), Ok(PointLocation::Inside));

    let xor = boolean_op(request(&subjects, &clips, ClipType::Xor)).unwrap();
    assert_eq!(area_sum(&xor), 200);
    assert_eq!(xor.len(), 2);
}

#[test]
fn handles_holes_containment_and_reversed_input() {
    let outer = rectangle(0, 0, 20, 20);
    let mut hole = rectangle(5, 5, 15, 15);
    hole.reverse();
    let subjects = [outer.clone()];
    let clips = [hole.clone()];
    let result = boolean_op(request(&subjects, &clips, ClipType::Difference)).unwrap();
    assert_eq!(result.len(), 2);
    assert_eq!(area_sum(&result), 600);
    assert!(result.iter().any(|path| signed_area2(path).unwrap() > 0));
    assert!(result.iter().any(|path| signed_area2(path).unwrap() < 0));

    let union = boolean_op(request(&[outer], &[], ClipType::Union)).unwrap();
    assert_eq!(union.len(), 1);
    assert_eq!(area_sum(&union), 800);
}

#[test]
fn handles_empty_disjoint_touching_and_identical_inputs() {
    let subject = rectangle(0, 0, 10, 10);
    let disjoint = rectangle(20, 0, 30, 10);
    let subjects = [subject.clone()];
    let clips = [disjoint.clone()];
    assert!(boolean_op(request(&[], &clips, ClipType::Intersection)).unwrap().is_empty());
    assert_eq!(boolean_op(request(&subjects, &[], ClipType::Difference)).unwrap().len(), 1);
    assert_eq!(boolean_op(request(&subjects, &clips, ClipType::Union)).unwrap().len(), 2);
    assert!(boolean_op(request(&subjects, &subjects, ClipType::Xor)).unwrap().is_empty());

    let touching = rectangle(10, 0, 20, 10);
    let touching_paths = [touching];
    let union = boolean_op(request(&subjects, &touching_paths, ClipType::Union)).unwrap();
    assert_eq!(area_sum(&union), 400);
    assert_eq!(union.len(), 1);
}

#[test]
fn boolean_algebra_properties_hold_for_deterministic_rectangles() {
    for offset in -3..=3 {
        let subject = rectangle(0, 0, 10, 10);
        let clip = rectangle(offset * 3, 2, offset * 3 + 8, 12);
        let subjects = [subject.clone()];
        let clips = [clip.clone()];

        let union = boolean_op(request(&subjects, &clips, ClipType::Union)).unwrap();
        let reverse_union = boolean_op(request(&clips, &subjects, ClipType::Union)).unwrap();
        assert_eq!(canonical_summary(&union), canonical_summary(&reverse_union));

        let intersection = boolean_op(request(&subjects, &clips, ClipType::Intersection)).unwrap();
        let reverse_intersection = boolean_op(request(&clips, &subjects, ClipType::Intersection)).unwrap();
        assert_eq!(canonical_summary(&intersection), canonical_summary(&reverse_intersection));

        let xor = boolean_op(request(&subjects, &clips, ClipType::Xor)).unwrap();
        let reverse_xor = boolean_op(request(&clips, &subjects, ClipType::Xor)).unwrap();
        assert_eq!(canonical_summary(&xor), canonical_summary(&reverse_xor));

        assert_eq!(
            canonical_summary(&boolean_op(request(&subjects, &subjects, ClipType::Union)).unwrap()),
            canonical_summary(&subjects)
        );
        assert_eq!(
            canonical_summary(&boolean_op(request(&subjects, &subjects, ClipType::Intersection)).unwrap()),
            canonical_summary(&subjects)
        );
        assert!(boolean_op(request(&subjects, &subjects, ClipType::Xor)).unwrap().is_empty());
        assert_eq!(
            canonical_summary(&boolean_op(request(&subjects, &[], ClipType::Difference)).unwrap()),
            canonical_summary(&subjects)
        );
        assert!(boolean_op(request(&subjects, &[], ClipType::Intersection)).unwrap().is_empty());
    }
}

#[test]
fn fill_rules_distinguish_winding() {
    let path = vec![
        Point64::new(0, 0),
        Point64::new(10, 0),
        Point64::new(10, 10),
        Point64::new(0, 10),
        Point64::new(0, 0),
        Point64::new(10, 0),
        Point64::new(10, 10),
        Point64::new(0, 10),
    ];
    let subjects = [path];
    let even_odd = boolean_op(BooleanRequest {
        limits: ComplexityLimits::default_limits(),
        open_subjects: &[],
        closed_subjects: &subjects,
        clips: &[],
        clip_type: ClipType::Union,
        fill_rule: FillRule::EvenOdd,
    })
    .unwrap();
    assert!(even_odd.is_empty());
    let non_zero = boolean_op(BooleanRequest {
        limits: ComplexityLimits::default_limits(),
        open_subjects: &[],
        closed_subjects: &subjects,
        clips: &[],
        clip_type: ClipType::Union,
        fill_rule: FillRule::NonZero,
    })
    .unwrap();
    assert_eq!(area_sum(&non_zero), 200);
}

#[test]
fn rejects_integer_result_with_fractional_coordinate() {
    let subject = rectangle(0, 0, 10, 10);
    let clip = vec![Point64::new(3, -1), Point64::new(13, 4), Point64::new(3, 9)];
    let result = boolean_op(BooleanRequest {
        limits: ComplexityLimits::default_limits(),
        open_subjects: &[],
        closed_subjects: &[subject],
        clips: &[clip],
        clip_type: ClipType::Intersection,
        fill_rule: FillRule::EvenOdd,
    });
    assert!(matches!(result, Err(Error::NonIntegralResult)));
}
