use knipsa::ffi::{
    KnipsaClipType, KnipsaEndType, KnipsaFillRule, KnipsaJoinType, KnipsaLocation, KnipsaPathKind, KnipsaPoint64,
    KnipsaStatus, clip_type_from_u8, fill_rule_from_u8, path_kind_from_u8, status_from_error, status_message,
};
use knipsa::{ClipType, ComplexityResource, Error, FillRule, PathKind, Point64, PointLocation};

#[test]
fn enumeration_numbers_are_stable() {
    assert_eq!(KnipsaJoinType::Square.code(), 0);
    assert_eq!(KnipsaJoinType::Miter.code(), 3);
    assert_eq!(KnipsaEndType::Polygon.code(), 0);
    assert_eq!(KnipsaEndType::Round.code(), 4);
    assert_eq!(KnipsaPathKind::Open.code(), 1);
    assert_eq!(KnipsaClipType::Intersection.code(), 1);
    assert_eq!(KnipsaClipType::Xor.code(), 4);
    assert_eq!(KnipsaFillRule::Negative.code(), 3);
    assert_eq!(KnipsaStatus::Success.code(), 0);
    assert_eq!(KnipsaStatus::TriangulationFailure.code(), 11);
    assert_eq!(KnipsaLocation::Boundary.code(), 2);
}

#[test]
fn decoders_accept_exactly_the_documented_numbers() {
    assert_eq!(path_kind_from_u8(0), Some(PathKind::Closed));
    assert_eq!(path_kind_from_u8(1), Some(PathKind::Open));
    assert_eq!(path_kind_from_u8(2), None);
    assert_eq!(clip_type_from_u8(0), None);
    assert_eq!(clip_type_from_u8(1), Some(ClipType::Intersection));
    assert_eq!(clip_type_from_u8(4), Some(ClipType::Xor));
    assert_eq!(clip_type_from_u8(5), None);
    assert_eq!(fill_rule_from_u8(0), Some(FillRule::EvenOdd));
    assert_eq!(fill_rule_from_u8(3), Some(FillRule::Negative));
    assert_eq!(fill_rule_from_u8(4), None);
}

#[test]
fn errors_map_to_failure_statuses() {
    assert_eq!(
        status_from_error(&Error::InvalidPath { kind: PathKind::Closed, minimum_vertices: 3, actual_vertices: 1 }),
        KnipsaStatus::InvalidPath
    );
    assert_eq!(status_from_error(&Error::ArithmeticOverflow), KnipsaStatus::ArithmeticOverflow);
    assert_eq!(status_from_error(&Error::NonIntegralResult), KnipsaStatus::NonIntegralResult);
    assert_eq!(status_from_error(&Error::TopologyFailure), KnipsaStatus::TopologyFailure);
    assert_eq!(status_from_error(&Error::IntersectingPaths), KnipsaStatus::IntersectingPaths);
    assert_eq!(
        status_from_error(&Error::LimitExceeded { resource: ComplexityResource::Paths, limit: 0, required: 1 }),
        KnipsaStatus::InvalidArgument
    );
}

#[test]
fn status_messages_cover_known_and_unknown_codes() {
    assert_eq!(status_message(0), "ok");
    assert_eq!(status_message(2), "invalid path");
    assert_eq!(status_message(11), "triangulation failed");
    assert_eq!(status_message(12), "unknown status");
    assert_eq!(status_message(255), "unknown status");
}

#[test]
fn conversions_keep_values() {
    assert_eq!(Point64::from(KnipsaPoint64 { x: -3, y: 7 }), Point64::new(-3, 7));
    assert_eq!(PathKind::from(KnipsaPathKind::Open), PathKind::Open);
    assert_eq!(KnipsaLocation::from(PointLocation::Inside), KnipsaLocation::Inside);
    assert_eq!(KnipsaLocation::from(PointLocation::Boundary), KnipsaLocation::Boundary);
}
