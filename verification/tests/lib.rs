use knipsa::{BooleanRequest, ClipType, ComplexityLimits, ComplexityResource, Error, FillRule, PathKind, boolean_op};

#[test]
fn public_contract_is_constructible() {
    assert_eq!(PathKind::Closed, PathKind::Closed);
    let request = BooleanRequest {
        limits: ComplexityLimits::default_limits(),
        open_subjects: &[],
        closed_subjects: &[],
        clips: &[],
        clip_type: ClipType::Xor,
        fill_rule: FillRule::Positive,
    };
    assert!(boolean_op(request).is_ok());
}

#[test]
fn errors_are_displayable() {
    let errors = [
        Error::InvalidPath { kind: PathKind::Closed, minimum_vertices: 3, actual_vertices: 2 },
        Error::NonFiniteCoordinate { point_index: 4 },
        Error::ArithmeticOverflow,
        Error::NonIntegralResult,
        Error::TopologyFailure,
        Error::InvalidOffset,
        Error::TriangulationFailure,
        Error::IntersectingPaths,
        Error::LimitExceeded { resource: ComplexityResource::Vertices, limit: 4, required: 5 },
    ];
    for error in errors {
        assert!(!error.message().is_empty());
    }
}
