use knipsa::exact::ExactPoint;
use knipsa::open64::{
    MidpointWinding64, OpenKeep64, open_fragment_keep64, paths_winding_at64_midpoint, point_on_segment64,
    sort_points_on_segment64, split_edge_pair64,
};
use knipsa::open_exact::{append_open_fragments, boundary_run_keep, resolve_boundary_keeps};
use knipsa::rings::exact_paths_to_i64;
use knipsa::{ClipType, FillRule, Point64};

fn exact_point(x: i64, y: i64) -> ExactPoint {
    ExactPoint::from_point64(Point64::new(x, y))
}

fn rectangle(left: i64, bottom: i64, right: i64, top: i64) -> Vec<Point64> {
    vec![Point64::new(left, bottom), Point64::new(right, bottom), Point64::new(right, top), Point64::new(left, top)]
}

#[test]
fn open_fragment_helpers_cover_conservative_cases() {
    let mut split_points = vec![Point64::new(0, 0), Point64::new(3, 1)];
    assert!(!split_edge_pair64(
        Point64::new(0, 0),
        Point64::new(3, 1),
        Point64::new(1, -1),
        Point64::new(1, 2),
        &mut split_points,
    ));
    assert_eq!(point_on_segment64(Point64::new(1, 1), Point64::new(0, 0), Point64::new(2, 0)), Some(false));
    assert_eq!(point_on_segment64(Point64::new(-1, 0), Point64::new(0, 0), Point64::new(2, 0)), Some(false));
    assert_eq!(point_on_segment64(Point64::new(0, -1), Point64::new(0, 0), Point64::new(0, 2)), Some(false));

    let mut fractional_x = vec![Point64::new(0, 0), Point64::new(3, 0)];
    assert!(!split_edge_pair64(
        Point64::new(0, 0),
        Point64::new(3, 0),
        Point64::new(1, -1),
        Point64::new(2, 1),
        &mut fractional_x,
    ));

    let points = vec![Point64::new(1, 2), Point64::new(1, 0), Point64::new(1, 1)];
    let sorted = sort_points_on_segment64(&points, Point64::new(1, 2), Point64::new(1, 0));
    assert_eq!(sorted, vec![Point64::new(1, 2), Point64::new(1, 1), Point64::new(1, 0)]);

    let subject = [rectangle(0, 0, 10, 10)];
    assert!(matches!(
        paths_winding_at64_midpoint(Point64::new(-2, 0), Point64::new(-1, 0), &subject),
        Some(MidpointWinding64::Winding(_))
    ));
    assert!(matches!(
        paths_winding_at64_midpoint(Point64::new(11, 0), Point64::new(12, 0), &subject),
        Some(MidpointWinding64::Winding(_))
    ));
    assert!(matches!(
        paths_winding_at64_midpoint(Point64::new(0, -2), Point64::new(0, -1), &subject),
        Some(MidpointWinding64::Winding(_))
    ));
    assert!(matches!(
        paths_winding_at64_midpoint(Point64::new(0, 11), Point64::new(0, 12), &subject),
        Some(MidpointWinding64::Winding(_))
    ));
    assert!(matches!(
        open_fragment_keep64(Point64::new(0, 0), Point64::new(5, 0), &subject, &[], ClipType::Union, FillRule::EvenOdd),
        Some(OpenKeep64::Boundary)
    ));

    // The height order is the sign of the previous start's y minus the next
    // end's y, zero when either neighbour is missing.
    assert!(!boundary_run_keep(None, None, 0));
    assert!(boundary_run_keep(Some(true), Some(true), -1));
    assert!(boundary_run_keep(Some(true), Some(false), 1));
    assert!(boundary_run_keep(Some(false), Some(true), -1));
    assert!(boundary_run_keep(Some(false), Some(true), 0));

    let mut keeps = vec![Some(false), None, Some(true), None];
    let starts = vec![exact_point(0, 0), exact_point(1, 0), exact_point(2, 0), exact_point(3, 0)];
    let ends = vec![exact_point(1, 0), exact_point(2, 0), exact_point(3, 0), exact_point(4, 0)];
    resolve_boundary_keeps(&mut keeps, &starts, &ends);
    assert!(keeps[1].is_some());
    assert!(keeps[3].is_some());

    let keeps = vec![Some(true), Some(true), Some(false)];
    let starts = vec![exact_point(0, 0), exact_point(1, 0), exact_point(2, 0)];
    let ends = vec![exact_point(1, 0), exact_point(2, 0), exact_point(3, 0)];
    let mut output = Vec::new();
    append_open_fragments(&keeps, &starts, &ends, &mut output);
    assert_eq!(
        exact_paths_to_i64(&output).unwrap(),
        vec![vec![Point64::new(0, 0), Point64::new(1, 0), Point64::new(2, 0)]]
    );
}
