use knipsa::{
    ClipType, Error, FillRule, PathKind, Point64, Rect64, difference, intersection, normalize_path64, reverse_path64,
    signed_area2, translate_path64, union, xor,
};

fn square(x: i64, y: i64, size: i64) -> Vec<Point64> {
    vec![Point64::new(x, y), Point64::new(x + size, y), Point64::new(x + size, y + size), Point64::new(x, y + size)]
}

#[test]
fn reversing_negates_area_and_twice_restores() {
    let path = vec![Point64::new(0, 0), Point64::new(7, 1), Point64::new(3, 5), Point64::new(-2, 4)];
    let reversed = reverse_path64(&path);
    assert_eq!(signed_area2(&reversed).unwrap(), -signed_area2(&path).unwrap());
    assert_eq!(reverse_path64(&reversed), path);
}

#[test]
fn translation_keeps_area_and_round_trips() {
    let path = vec![Point64::new(0, 0), Point64::new(7, 1), Point64::new(3, 5)];
    let moved = translate_path64(&path, 100, -40).unwrap();
    assert_eq!(moved[1], Point64::new(107, -39));
    assert_eq!(signed_area2(&moved), signed_area2(&path));
    assert_eq!(translate_path64(&moved, -100, 40).unwrap(), path);
    assert_eq!(translate_path64(&[Point64::new(i64::MAX, 0)], 1, 0), Err(Error::ArithmeticOverflow));
}

#[test]
fn normalizing_twice_changes_nothing() {
    let path = vec![
        Point64::new(0, 0),
        Point64::new(0, 0),
        Point64::new(4, 0),
        Point64::new(4, 4),
        Point64::new(4, 4),
        Point64::new(0, 0),
    ];
    let once = normalize_path64(&path, PathKind::Closed);
    assert_eq!(once, vec![Point64::new(0, 0), Point64::new(4, 0), Point64::new(4, 4)]);
    assert_eq!(normalize_path64(&once, PathKind::Closed), once);
    let open = normalize_path64(&path, PathKind::Open);
    assert_eq!(open.len(), 4);
    assert_eq!(normalize_path64(&open, PathKind::Open), open);
}

#[test]
fn rectangle_paths_run_counter_clockwise() {
    let rect = Rect64::new(10, 7, -2, 1);
    assert_eq!(rect, Rect64 { min_x: -2, min_y: 1, max_x: 10, max_y: 7 });
    assert_eq!(signed_area2(&rect.path()).unwrap(), 2 * 12 * 6);
}

#[test]
fn empty_sides_give_empty_results() {
    let subject = vec![square(0, 0, 10)];
    assert!(intersection(&subject, &[]).unwrap().is_empty());
    assert!(intersection(&[], &subject).unwrap().is_empty());
    assert!(difference(&[], &subject).unwrap().is_empty());
    assert!(union(&[], &[]).unwrap().is_empty());
    assert!(xor(&[], &[]).unwrap().is_empty());
    let _ = (ClipType::Union, FillRule::EvenOdd);
}

#[test]
fn shortcut_rings_come_back_counter_clockwise() {
    let mut clockwise = square(0, 0, 4);
    clockwise.reverse();
    let result = union(&[clockwise.clone()], &[]).unwrap();
    assert_eq!(result.len(), 1);
    assert_eq!(signed_area2(&result[0]).unwrap(), 32);
    let separated = union(&[clockwise], &[square(10, 10, 2)]).unwrap();
    assert_eq!(separated.len(), 2);
    assert!(separated.iter().all(|ring| signed_area2(ring).unwrap() > 0));
}
