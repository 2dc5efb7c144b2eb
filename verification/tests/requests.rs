use knipsa::{
    BooleanRequest, ClipType, ComplexityLimits, Error, FillRule, Point64, boolean_op, difference, difference_path,
    intersection, intersection_path, union, union_path, xor, xor_path,
};

#[test]
fn constructors_preserve_borrowed_inputs_and_options() {
    let integer_subject = vec![Point64::new(0, 0)];
    let integer_clip = vec![Point64::new(1, 1)];
    let integer_request = BooleanRequest::new(
        std::slice::from_ref(&integer_subject),
        std::slice::from_ref(&integer_clip),
        ClipType::Difference,
        FillRule::Positive,
    );
    assert!(std::ptr::eq(integer_request.closed_subjects[0].as_ptr(), integer_subject.as_ptr()));
    assert!(std::ptr::eq(integer_request.clips[0].as_ptr(), integer_clip.as_ptr()));
    assert_eq!(integer_request.clip_type, ClipType::Difference);
    assert_eq!(integer_request.fill_rule, FillRule::Positive);
    let cloned = Clone::clone(&integer_request);
    assert_eq!(cloned.closed_subjects, integer_request.closed_subjects);
}

#[test]
fn open_subjects_are_charged_only_against_relevant_filled_boundaries() {
    let open = [(0..3_000).map(|x| Point64::new(x, 0)).collect::<Vec<Point64>>()];
    let output = boolean_op(BooleanRequest {
        closed_subjects: &[],
        open_subjects: &open,
        clips: &[],
        clip_type: ClipType::Difference,
        fill_rule: FillRule::EvenOdd,
        limits: ComplexityLimits::new(1, 3_000, 0),
    })
    .expect("an isolated open polyline has no candidate edge pairs");
    assert_eq!(output.open, open);
}

#[test]
fn validation_keeps_scanning_complexity_after_the_first_error() {
    let integer_closed = [vec![Point64::new(0, 0)], vec![Point64::new(0, 0), Point64::new(2, 0), Point64::new(0, 2)]];
    let integer_open = [vec![Point64::new(0, 0), Point64::new(1, 1)]];
    assert!(matches!(
        boolean_op(BooleanRequest {
            closed_subjects: &integer_closed,
            open_subjects: &integer_open,
            clips: &[],
            clip_type: ClipType::Intersection,
            fill_rule: FillRule::EvenOdd,
            limits: ComplexityLimits::default_limits(),
        }),
        Err(Error::InvalidPath { .. })
    ));
}

fn square_pair() -> (Vec<Point64>, Vec<Point64>) {
    (
        vec![Point64::new(0, 0), Point64::new(10, 0), Point64::new(10, 10), Point64::new(0, 10)],
        vec![Point64::new(5, 0), Point64::new(15, 0), Point64::new(15, 10), Point64::new(5, 10)],
    )
}

#[test]
fn convenience_operations_use_even_odd_semantics() {
    let (subject, clip) = square_pair();
    let subjects = [subject];
    let clips = [clip];
    assert_eq!(intersection(&subjects, &clips).expect("intersection").len(), 1);
    assert_eq!(union(&subjects, &clips).expect("union").len(), 1);
    assert_eq!(difference(&subjects, &clips).expect("difference").len(), 1);
    assert_eq!(xor(&subjects, &clips).expect("xor").len(), 2);
}

#[test]
fn single_ring_helpers_match_collection_helpers() {
    let (integer_subject, integer_clip) = square_pair();
    let integer_subjects = std::slice::from_ref(&integer_subject);
    let integer_clips = std::slice::from_ref(&integer_clip);
    assert_eq!(intersection_path(&integer_subject, &integer_clip), intersection(integer_subjects, integer_clips));
    assert_eq!(union_path(&integer_subject, &integer_clip), union(integer_subjects, integer_clips));
    assert_eq!(difference_path(&integer_subject, &integer_clip), difference(integer_subjects, integer_clips));
    assert_eq!(xor_path(&integer_subject, &integer_clip), xor(integer_subjects, integer_clips));
}
