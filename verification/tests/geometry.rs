use knipsa::geometry::checked_cross;
use knipsa::{Error, Orientation, Point64, PointLocation, orientation, point_in_polygon, signed_area2};

const A: Point64 = Point64 { x: 0, y: 0 };
const B: Point64 = Point64 { x: 10, y: 0 };
const C: Point64 = Point64 { x: 10, y: 10 };

#[test]
fn reports_arithmetic_overflow() {
    let extreme = vec![
        Point64::new(i64::MAX, i64::MAX),
        Point64::new(i64::MIN, i64::MAX),
        Point64::new(i64::MIN, i64::MIN),
        Point64::new(i64::MAX, i64::MIN),
    ];
    assert_eq!(signed_area2(&extreme), Err(Error::ArithmeticOverflow));
    assert_eq!(
        signed_area2(&[Point64::new(i64::MIN, i64::MIN), Point64::new(i64::MIN, 1), Point64::new(i64::MAX, i64::MIN),]),
        Err(Error::ArithmeticOverflow)
    );
    assert_eq!(
        orientation(
            Point64::new(i64::MIN, i64::MIN),
            Point64::new(i64::MAX, i64::MAX),
            Point64::new(i64::MIN, i64::MAX)
        ),
        Ok(Orientation::CounterClockwise)
    );
    assert_eq!(
        checked_cross(
            Point64::new(i64::MIN, i64::MIN),
            Point64::new(i64::MIN, i64::MAX),
            Point64::new(i64::MAX, i64::MIN),
        ),
        Err(Error::ArithmeticOverflow)
    );
    assert_eq!(
        checked_cross(Point64::new(i64::MIN, -1), Point64::new(-1, i64::MIN), Point64::new(i64::MAX, i64::MAX),),
        Err(Error::ArithmeticOverflow)
    );
}

#[test]
fn classifies_points_and_empty_paths() {
    let square = vec![A, B, C, Point64::new(0, 10)];
    assert_eq!(point_in_polygon(Point64::new(5, 5), &square), Ok(PointLocation::Inside));
    assert_eq!(point_in_polygon(Point64::new(15, 5), &square), Ok(PointLocation::Outside));
    assert_eq!(point_in_polygon(Point64::new(20, 0), &square), Ok(PointLocation::Outside));
    assert_eq!(point_in_polygon(Point64::new(-1, 0), &square), Ok(PointLocation::Outside));
    assert_eq!(point_in_polygon(Point64::new(10, 20), &square), Ok(PointLocation::Outside));
    assert_eq!(point_in_polygon(Point64::new(10, -1), &square), Ok(PointLocation::Outside));
    assert_eq!(point_in_polygon(Point64::new(10, 5), &square), Ok(PointLocation::Boundary));
    assert_eq!(point_in_polygon(A, &[]), Ok(PointLocation::Outside));
    assert!(point_in_polygon(A, &[A, B]).is_err());

    let extreme = vec![
        Point64::new(i64::MAX, i64::MAX),
        Point64::new(i64::MIN, i64::MAX),
        Point64::new(i64::MIN, i64::MIN),
        Point64::new(i64::MAX, i64::MIN),
    ];
    assert_eq!(point_in_polygon(Point64::new(0, 0), &extreme), Ok(PointLocation::Inside));
    assert_eq!(point_in_polygon(Point64::new(i64::MIN, 0), &extreme), Ok(PointLocation::Boundary));
}
