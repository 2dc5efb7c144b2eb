use knipsa::{
    Error, FillRule, Orientation, PathKind, Point64, Rect64, clip_to_rect64, normalize_path64, orientation,
    reverse_path64, signed_area2, simplify_paths64, translate_path64, trim_collinear64, validate_path64,
    validate_paths64,
};

const A: Point64 = Point64 { x: 0, y: 0 };
const B: Point64 = Point64 { x: 10, y: 0 };
const C: Point64 = Point64 { x: 10, y: 10 };

#[test]
fn validates_empty_and_minimum_shapes() {
    assert!(validate_path64(&[], PathKind::Closed).is_ok());
    assert!(validate_path64(&[A], PathKind::Closed).is_err());
    assert!(validate_path64(&[A, B], PathKind::Closed).is_err());
    assert!(validate_path64(&[A, B], PathKind::Open).is_ok());
    assert!(validate_path64(&[A], PathKind::Open).is_err());
    assert!(validate_paths64(&[vec![A, B]], PathKind::Open).is_ok());
    assert!(validate_paths64(&[vec![A]], PathKind::Closed).is_err());
}

#[test]
fn normalizes_integer_and_double_paths() {
    let input = [A, A, B, B, C, A, A];
    assert_eq!(normalize_path64(&input, PathKind::Closed), vec![A, B, C]);
    assert_eq!(normalize_path64(&[A, B, C], PathKind::Closed), vec![A, B, C]);
    assert_eq!(normalize_path64(&input, PathKind::Open), vec![A, B, C, A]);
    assert!(normalize_path64(&[], PathKind::Closed).is_empty());
}

#[test]
fn computes_area_and_orientation() {
    let square = vec![A, B, C, Point64::new(0, 10)];
    assert_eq!(signed_area2(&square), Ok(200));
    let mut reverse = square.clone();
    reverse.reverse();
    assert_eq!(signed_area2(&reverse), Ok(-200));
    assert_eq!(signed_area2(&[A, B]), Ok(0));
    assert_eq!(orientation(A, B, C), Ok(Orientation::CounterClockwise));
    assert_eq!(orientation(C, B, A), Ok(Orientation::Clockwise));
    assert_eq!(orientation(A, B, Point64::new(20, 0)), Ok(Orientation::Collinear));
}

#[test]
fn transforms_and_trims_paths() {
    let square = vec![A, B, C, Point64::new(0, 10)];
    let with_collinear = vec![A, Point64::new(5, 0), B, C, Point64::new(0, 10), A];
    assert_eq!(trim_collinear64(&with_collinear, PathKind::Closed), Ok(square.clone()));
    assert_eq!(trim_collinear64(&[A, Point64::new(5, 0), B, C], PathKind::Open), Ok(vec![A, B, C]));
    assert_eq!(reverse_path64(&square), vec![Point64::new(0, 10), C, B, A]);
    assert_eq!(
        translate_path64(&square, 5, -2),
        Ok(vec![Point64::new(5, -2), Point64::new(15, -2), Point64::new(15, 8), Point64::new(5, 8)])
    );
    assert_eq!(translate_path64(&[Point64::new(i64::MAX, 0)], 1, 0), Err(Error::ArithmeticOverflow));
    let collinear_closed64 = [A, Point64::new(5, 0), B];
    assert_eq!(trim_collinear64(&collinear_closed64, PathKind::Closed), Ok(vec![A, B]));
}

#[test]
fn simplifies_and_clips_to_rectangles() {
    let bow_tie = vec![Point64::new(0, 0), Point64::new(20, 20), Point64::new(0, 20), Point64::new(20, 0)];
    let simplified = simplify_paths64(&[bow_tie], FillRule::EvenOdd).unwrap();
    assert_eq!(simplified.len(), 2);
    assert_eq!(simplified.iter().map(|path| signed_area2(path).unwrap().abs()).sum::<i128>(), 400);

    let subject = vec![Point64::new(0, 0), Point64::new(20, 0), Point64::new(20, 20), Point64::new(0, 20)];
    let clipped = clip_to_rect64(&[subject], Rect64::new(5, 5, 15, 15), FillRule::EvenOdd).unwrap();
    assert_eq!(clipped.len(), 1);
    assert_eq!(signed_area2(&clipped[0]), Ok(200));
    assert_eq!(Rect64::new(15, 15, 5, 5), Rect64::new(5, 5, 15, 15));
}
