use knipsa::{
    BooleanRequest, ClipType, ComplexityLimits, ComplexityResource, Error, FillRule, PathKind, Point64, boolean_op,
};

#[test]
fn exposes_stable_operation_values() {
    assert_eq!(ClipType::Intersection.code(), 1);
    assert_eq!(ClipType::Union.code(), 2);
    assert_eq!(ClipType::Difference.code(), 3);
    assert_eq!(ClipType::Xor.code(), 4);
    assert_eq!(FillRule::EvenOdd as u8, 0);
    assert_eq!(FillRule::NonZero as u8, 1);
    assert_eq!(FillRule::Positive as u8, 2);
    assert_eq!(FillRule::Negative as u8, 3);
}

#[test]
fn executes_union_with_empty_clip() {
    let square = vec![Point64::new(0, 0), Point64::new(1, 0), Point64::new(1, 1)];
    let request = BooleanRequest {
        limits: ComplexityLimits::default_limits(),
        open_subjects: &[],
        closed_subjects: &[square],
        clips: &[],
        clip_type: ClipType::Union,
        fill_rule: FillRule::NonZero,
    };
    assert_eq!(boolean_op(request).expect("valid request").closed.len(), 1);
}

#[test]
fn rejects_invalid_boolean_input_before_kernel() {
    let request = BooleanRequest {
        limits: ComplexityLimits::default_limits(),
        open_subjects: &[],
        closed_subjects: &[vec![Point64::new(0, 0)]],
        clips: &[],
        clip_type: ClipType::Intersection,
        fill_rule: FillRule::EvenOdd,
    };
    assert!(matches!(boolean_op(request), Err(Error::InvalidPath { .. })));
}

#[test]
fn open_requests_validate_and_preflight_before_geometry_work() {
    let invalid_open = [vec![Point64::new(0, 0)]];
    let validation = BooleanRequest {
        closed_subjects: &[],
        open_subjects: &invalid_open,
        clips: &[],
        clip_type: ClipType::Intersection,
        fill_rule: FillRule::EvenOdd,
        limits: ComplexityLimits::default_limits(),
    };
    assert!(matches!(boolean_op(validation), Err(Error::InvalidPath { kind: PathKind::Open, .. })));

    let oversized = [vec![Point64::new(0, 0), Point64::new(1, 1)]];
    let limited = BooleanRequest {
        closed_subjects: &[],
        open_subjects: &oversized,
        clips: &[],
        clip_type: ClipType::Difference,
        fill_rule: FillRule::EvenOdd,
        limits: ComplexityLimits::new(0, 0, 0),
    };
    assert!(matches!(boolean_op(limited), Err(Error::LimitExceeded { resource: ComplexityResource::Paths, .. })));
}
