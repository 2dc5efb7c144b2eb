use geo_types::{Coord, LineString, Polygon};
use knipsa::Point64;
use knipsa::geo_conversions::{Polygon64, closed_line_string, polygon64_from_rings, rings_of_polygon64, trim_closing_point};

fn points(line: &LineString<i64>) -> Vec<Point64> {
    line.0.iter().map(|coord| Point64::new(coord.x, coord.y)).collect()
}

fn line(points: Vec<Point64>) -> LineString<i64> {
    LineString::new(points.iter().map(|point| Coord { x: point.x, y: point.y }).collect())
}

fn path64_from_line_string(line: &LineString<i64>) -> Vec<Point64> {
    trim_closing_point(points(line))
}

fn line_string_from_path64(path: &[Point64]) -> LineString<i64> {
    line(closed_line_string(path))
}

fn polygon64_from_geo(polygon: &Polygon<i64>) -> Polygon64 {
    polygon64_from_rings(points(polygon.exterior()), polygon.interiors().iter().map(points).collect())
}

fn geo_polygon_from_polygon64(polygon: &Polygon64) -> Polygon<i64> {
    let (outer, holes) = rings_of_polygon64(polygon);
    Polygon::new(line(outer), holes.into_iter().map(line).collect())
}

#[test]
fn integer_polygon_preserves_winding_and_lines_handle_closure() {
    let exterior = vec![Point64::new(0, 0), Point64::new(4, 0), Point64::new(4, 4), Point64::new(0, 4)];
    let hole = vec![Point64::new(1, 1), Point64::new(1, 3), Point64::new(3, 3), Point64::new(3, 1)];
    let owned = Polygon64 { outer: exterior, holes: vec![hole] };
    let polygon = geo_polygon_from_polygon64(&owned);
    assert_eq!(polygon64_from_geo(&polygon), owned);

    let reversed = Polygon64 {
        outer: owned.outer.iter().copied().rev().collect(),
        holes: vec![owned.holes[0].iter().copied().rev().collect()],
    };
    assert_eq!(polygon64_from_geo(&geo_polygon_from_polygon64(&reversed)), reversed);

    let open = LineString::new(vec![Coord { x: 0_i64, y: 0 }, Coord { x: 1, y: 1 }]);
    assert_eq!(path64_from_line_string(&open).len(), 2);
    assert!(path64_from_line_string(&LineString::new(Vec::new())).is_empty());
    assert!(line_string_from_path64(&[]).0.is_empty());
    assert_eq!(line_string_from_path64(&[Point64::new(1, 1)]).0.len(), 1);
    let already_closed = [Point64::new(0, 0), Point64::new(1, 0), Point64::new(0, 0)];
    assert_eq!(line_string_from_path64(&already_closed).0.len(), 3);
}

#[test]
fn closing_then_trimming_restores_rings_with_distinct_ends() {
    let ring = vec![Point64::new(0, 0), Point64::new(3, 0), Point64::new(0, 3)];
    let closed = closed_line_string(&ring);
    assert_eq!(closed.len(), 4);
    assert_eq!(closed[3], Point64::new(0, 0));
    assert_eq!(trim_closing_point(closed), ring);
    let repeated = vec![Point64::new(0, 0), Point64::new(3, 0), Point64::new(0, 0)];
    assert_eq!(trim_closing_point(closed_line_string(&repeated)), vec![Point64::new(0, 0), Point64::new(3, 0)]);
}
