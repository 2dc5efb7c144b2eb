//! Stable values of the C interface: fixed-layout points, numbered
//! enumerations, status codes and the mapping of library errors to them.

use vstd::prelude::*;

use crate::error::Error;
use crate::geometry::{Point64, PointLocation};
use crate::request::{ClipType, FillRule};
use crate::PathKind;

verus! {

/// An integer point as C callers lay it out.
#[derive(Clone, Copy, Debug, Default, PartialEq, Eq, Structural)]
pub struct KnipsaPoint64 {
    /// Horizontal coordinate.
    pub x: i64,
    /// Vertical coordinate.
    pub y: i64,
}

impl From<KnipsaPoint64> for Point64 {
    fn from(point: KnipsaPoint64) -> (result: Self)
        ensures
            result == (Point64 { x: point.x, y: point.y }),
    {
        Point64::new(point.x, point.y)
    }
}

impl vstd::std_specs::convert::FromSpecImpl<KnipsaPoint64> for Point64 {
    open spec fn obeys_from_spec() -> bool {
        true
    }

    open spec fn from_spec(point: KnipsaPoint64) -> Point64 {
        Point64 { x: point.x, y: point.y }
    }
}

/// Join styles as numbered by the C interface.
#[derive(Clone, Copy, Debug, PartialEq, Eq, Structural)]
pub enum KnipsaJoinType {
    /// A square corner.
    Square,
    /// A bevelled corner.
    Bevel,
    /// A circular corner.
    Round,
    /// A mitered corner.
    Miter,
}

impl KnipsaJoinType {
    /// The number of this value in the C interface: 0 to 3 in declaration
    /// order.
    pub fn code(self) -> (code: u8)
        ensures
            code == match self {
                KnipsaJoinType::Square => 0u8,
                KnipsaJoinType::Bevel => 1u8,
                KnipsaJoinType::Round => 2u8,
                KnipsaJoinType::Miter => 3u8,
            },
    {
        match self {
            KnipsaJoinType::Square => 0,
            KnipsaJoinType::Bevel => 1,
            KnipsaJoinType::Round => 2,
            KnipsaJoinType::Miter => 3,
        }
    }
}

/// End styles as numbered by the C interface. `Polygon` is for closed
/// rings; all other values describe open polylines.
#[derive(Clone, Copy, Debug, PartialEq, Eq, Structural)]
pub enum KnipsaEndType {
    /// Treat paths as closed polygons.
    Polygon,
    /// Join the two sides of an open path.
    Joined,
    /// Butt cap.
    Butt,
    /// Square cap.
    Square,
    /// Round cap.
    Round,
}

impl KnipsaEndType {
    /// The number of this value in the C interface: 0 to 4 in declaration
    /// order.
    pub fn code(self) -> (code: u8)
        ensures
            code == match self {
                KnipsaEndType::Polygon => 0u8,
                KnipsaEndType::Joined => 1u8,
                KnipsaEndType::Butt => 2u8,
                KnipsaEndType::Square => 3u8,
                KnipsaEndType::Round => 4u8,
            },
    {
        match self {
            KnipsaEndType::Polygon => 0,
            KnipsaEndType::Joined => 1,
            KnipsaEndType::Butt => 2,
            KnipsaEndType::Square => 3,
            KnipsaEndType::Round => 4,
        }
    }
}

/// Whether a C path is closed or open.
#[derive(Clone, Copy, Debug, PartialEq, Eq, Structural)]
pub enum KnipsaPathKind {
    /// The final point connects back to the first.
    Closed,
    /// The final point does not connect back to the first.
    Open,
}

impl KnipsaPathKind {
    /// The number of this value in the C interface: 0 or 1.
    pub fn code(self) -> (code: u8)
        ensures
            code == match self {
                KnipsaPathKind::Closed => 0u8,
                KnipsaPathKind::Open => 1u8,
            },
    {
        match self {
            KnipsaPathKind::Closed => 0,
            KnipsaPathKind::Open => 1,
        }
    }
}

/// The library's path kind for a C path kind.
pub open spec fn path_kind_spec(kind: KnipsaPathKind) -> PathKind {
    match kind {
        KnipsaPathKind::Closed => PathKind::Closed,
        KnipsaPathKind::Open => PathKind::Open,
    }
}

impl From<KnipsaPathKind> for PathKind {
    fn from(kind: KnipsaPathKind) -> (result: Self)
        ensures
            result == path_kind_spec(kind),
    {
        match kind {
            KnipsaPathKind::Closed => PathKind::Closed,
            KnipsaPathKind::Open => PathKind::Open,
        }
    }
}

impl vstd::std_specs::convert::FromSpecImpl<KnipsaPathKind> for PathKind {
    open spec fn obeys_from_spec() -> bool {
        true
    }

    open spec fn from_spec(kind: KnipsaPathKind) -> PathKind {
        path_kind_spec(kind)
    }
}

/// Boolean operations as numbered by the C interface.
#[derive(Clone, Copy, Debug, PartialEq, Eq, Structural)]
pub enum KnipsaClipType {
    /// Keep the region present in both inputs.
    Intersection,
    /// Keep the region present in either input.
    Union,
    /// Keep subject regions outside clip regions.
    Difference,
    /// Keep regions present in exactly one input.
    Xor,
}

impl KnipsaClipType {
    /// The number of this value in the C interface: 1 to 4 in declaration
    /// order.
    pub fn code(self) -> (code: u8)
        ensures
            code == match self {
                KnipsaClipType::Intersection => 1u8,
                KnipsaClipType::Union => 2u8,
                KnipsaClipType::Difference => 3u8,
                KnipsaClipType::Xor => 4u8,
            },
    {
        match self {
            KnipsaClipType::Intersection => 1,
            KnipsaClipType::Union => 2,
            KnipsaClipType::Difference => 3,
            KnipsaClipType::Xor => 4,
        }
    }
}

/// Fill rules as numbered by the C interface.
#[derive(Clone, Copy, Debug, PartialEq, Eq, Structural)]
pub enum KnipsaFillRule {
    /// Alternate filled state at every crossing.
    EvenOdd,
    /// Fill where the winding number is non-zero.
    NonZero,
    /// Fill only positively wound regions.
    Positive,
    /// Fill only negatively wound regions.
    Negative,
}

impl KnipsaFillRule {
    /// The number of this value in the C interface: 0 to 3 in declaration
    /// order.
    pub fn code(self) -> (code: u8)
        ensures
            code == match self {
                KnipsaFillRule::EvenOdd => 0u8,
                KnipsaFillRule::NonZero => 1u8,
                KnipsaFillRule::Positive => 2u8,
                KnipsaFillRule::Negative => 3u8,
            },
    {
        match self {
            KnipsaFillRule::EvenOdd => 0,
            KnipsaFillRule::NonZero => 1,
            KnipsaFillRule::Positive => 2,
            KnipsaFillRule::Negative => 3,
        }
    }
}

/// Status codes returned across the C interface instead of panics.
#[derive(Clone, Copy, Debug, PartialEq, Eq, Structural)]
pub enum KnipsaStatus {
    /// The call succeeded.
    Success,
    /// A required pointer was null.
    NullPointer,
    /// A path did not satisfy the requested shape contract.
    InvalidPath,
    /// A checked integer computation overflowed.
    ArithmeticOverflow,
    /// An exact result could not be represented by the integer API.
    NonIntegralResult,
    /// The arrangement could not be closed into output rings.
    TopologyFailure,
    /// An operation or fill-rule value was not recognized, or an input
    /// exceeded a complexity limit.
    InvalidArgument,
    /// A Rust panic was contained at the interface boundary.
    InternalError,
    /// Input paths intersect where disjoint rings are required.
    IntersectingPaths,
    /// A floating-point coordinate is NaN or infinite.
    NonFiniteCoordinate,
    /// Offset parameters are not geometrically meaningful.
    InvalidOffset,
    /// The input topology could not be triangulated.
    TriangulationFailure,
}

/// The number of a status in the C interface: 0 to 11 in declaration order.
pub open spec fn status_code(status: KnipsaStatus) -> u8 {
    match status {
        KnipsaStatus::Success => 0,
        KnipsaStatus::NullPointer => 1,
        KnipsaStatus::InvalidPath => 2,
        KnipsaStatus::ArithmeticOverflow => 3,
        KnipsaStatus::NonIntegralResult => 4,
        KnipsaStatus::TopologyFailure => 5,
        KnipsaStatus::InvalidArgument => 6,
        KnipsaStatus::InternalError => 7,
        KnipsaStatus::IntersectingPaths => 8,
        KnipsaStatus::NonFiniteCoordinate => 9,
        KnipsaStatus::InvalidOffset => 10,
        KnipsaStatus::TriangulationFailure => 11,
    }
}

impl KnipsaStatus {
    /// The number of this status in the C interface.
    pub fn code(self) -> (code: u8)
        ensures
            code == status_code(self),
    {
        match self {
            KnipsaStatus::Success => 0,
            KnipsaStatus::NullPointer => 1,
            KnipsaStatus::InvalidPath => 2,
            KnipsaStatus::ArithmeticOverflow => 3,
            KnipsaStatus::NonIntegralResult => 4,
            KnipsaStatus::TopologyFailure => 5,
            KnipsaStatus::InvalidArgument => 6,
            KnipsaStatus::InternalError => 7,
            KnipsaStatus::IntersectingPaths => 8,
            KnipsaStatus::NonFiniteCoordinate => 9,
            KnipsaStatus::InvalidOffset => 10,
            KnipsaStatus::TriangulationFailure => 11,
        }
    }
}

/// Point classes as numbered by the C interface.
#[derive(Clone, Copy, Debug, PartialEq, Eq, Structural)]
pub enum KnipsaLocation {
    /// The point is outside the path.
    Outside,
    /// The point is inside the path.
    Inside,
    /// The point lies on the path boundary.
    Boundary,
}

impl KnipsaLocation {
    /// The number of this value in the C interface: 0 to 2 in declaration
    /// order.
    pub fn code(self) -> (code: u8)
        ensures
            code == match self {
                KnipsaLocation::Outside => 0u8,
                KnipsaLocation::Inside => 1u8,
                KnipsaLocation::Boundary => 2u8,
            },
    {
        match self {
            KnipsaLocation::Outside => 0,
            KnipsaLocation::Inside => 1,
            KnipsaLocation::Boundary => 2,
        }
    }
}

/// The C point class of a library point class.
pub open spec fn location_spec(location: PointLocation) -> KnipsaLocation {
    match location {
        PointLocation::Outside => KnipsaLocation::Outside,
        PointLocation::Inside => KnipsaLocation::Inside,
        PointLocation::Boundary => KnipsaLocation::Boundary,
    }
}

impl From<PointLocation> for KnipsaLocation {
    fn from(location: PointLocation) -> (result: Self)
        ensures
            result == location_spec(location),
    {
        match location {
            PointLocation::Outside => KnipsaLocation::Outside,
            PointLocation::Inside => KnipsaLocation::Inside,
            PointLocation::Boundary => KnipsaLocation::Boundary,
        }
    }
}

impl vstd::std_specs::convert::FromSpecImpl<PointLocation> for KnipsaLocation {
    open spec fn obeys_from_spec() -> bool {
        true
    }

    open spec fn from_spec(location: PointLocation) -> KnipsaLocation {
        location_spec(location)
    }
}

/// The status that reports each library error.
pub open spec fn status_of_error(error: Error) -> KnipsaStatus {
    match error {
        Error::InvalidPath { .. } => KnipsaStatus::InvalidPath,
        Error::NonFiniteCoordinate { .. } => KnipsaStatus::NonFiniteCoordinate,
        Error::ArithmeticOverflow => KnipsaStatus::ArithmeticOverflow,
        Error::NonIntegralResult => KnipsaStatus::NonIntegralResult,
        Error::TopologyFailure => KnipsaStatus::TopologyFailure,
        Error::InvalidOffset => KnipsaStatus::InvalidOffset,
        Error::TriangulationFailure => KnipsaStatus::TriangulationFailure,
        Error::IntersectingPaths => KnipsaStatus::IntersectingPaths,
        Error::LimitExceeded { .. } => KnipsaStatus::InvalidArgument,
    }
}

/// Maps a library error to its C status.
pub fn status_from_error(error: &Error) -> (status: KnipsaStatus)
    ensures
        status == status_of_error(*error),
{
    match error {
        Error::InvalidPath { .. } => KnipsaStatus::InvalidPath,
        Error::NonFiniteCoordinate { .. } => KnipsaStatus::NonFiniteCoordinate,
        Error::ArithmeticOverflow => KnipsaStatus::ArithmeticOverflow,
        Error::NonIntegralResult => KnipsaStatus::NonIntegralResult,
        Error::TopologyFailure => KnipsaStatus::TopologyFailure,
        Error::InvalidOffset => KnipsaStatus::InvalidOffset,
        Error::TriangulationFailure => KnipsaStatus::TriangulationFailure,
        Error::IntersectingPaths => KnipsaStatus::IntersectingPaths,
        Error::LimitExceeded { .. } => KnipsaStatus::InvalidArgument,
    }
}

/// Decodes a C path kind: 0 is closed, 1 is open.
pub fn path_kind_from_u8(value: u8) -> (kind: Option<PathKind>)
    ensures
        kind == match value {
            0 => Some(PathKind::Closed),
            1 => Some(PathKind::Open),
            _ => None::<PathKind>,
        },
{
    match value {
        0 => Some(PathKind::Closed),
        1 => Some(PathKind::Open),
        _ => None,
    }
}

/// The Boolean operation with a C number, if there is one.
pub open spec fn clip_type_of_code(value: u8) -> Option<ClipType> {
    match value {
        1 => Some(ClipType::Intersection),
        2 => Some(ClipType::Union),
        3 => Some(ClipType::Difference),
        4 => Some(ClipType::Xor),
        _ => None::<ClipType>,
    }
}

/// The C number of a Boolean operation.
pub open spec fn clip_type_code(clip_type: ClipType) -> u8 {
    match clip_type {
        ClipType::Intersection => 1,
        ClipType::Union => 2,
        ClipType::Difference => 3,
        ClipType::Xor => 4,
    }
}

/// The fill rule with a C number, if there is one.
pub open spec fn fill_rule_of_code(value: u8) -> Option<FillRule> {
    match value {
        0 => Some(FillRule::EvenOdd),
        1 => Some(FillRule::NonZero),
        2 => Some(FillRule::Positive),
        3 => Some(FillRule::Negative),
        _ => None::<FillRule>,
    }
}

/// The C number of a fill rule.
pub open spec fn fill_rule_code(fill_rule: FillRule) -> u8 {
    match fill_rule {
        FillRule::EvenOdd => 0,
        FillRule::NonZero => 1,
        FillRule::Positive => 2,
        FillRule::Negative => 3,
    }
}

/// Decoding the C number of an operation or a fill rule gives it back, and
/// only those numbers decode.
pub proof fn law_codes_round_trip(clip_type: ClipType, fill_rule: FillRule, value: u8)
    ensures
        clip_type_of_code(clip_type_code(clip_type)) == Some(clip_type),
        fill_rule_of_code(fill_rule_code(fill_rule)) == Some(fill_rule),
        clip_type_of_code(value) matches Some(decoded) ==> clip_type_code(decoded) == value,
        fill_rule_of_code(value) matches Some(decoded) ==> fill_rule_code(decoded) == value,
{
}

/// Decodes a C Boolean operation: 1 to 4 are intersection, union,
/// difference and XOR.
pub fn clip_type_from_u8(value: u8) -> (clip_type: Option<ClipType>)
    ensures
        clip_type == clip_type_of_code(value),
{
    match value {
        1 => Some(ClipType::Intersection),
        2 => Some(ClipType::Union),
        3 => Some(ClipType::Difference),
        4 => Some(ClipType::Xor),
        _ => None,
    }
}

/// Decodes a C fill rule: 0 to 3 are even-odd, non-zero, positive and
/// negative.
pub fn fill_rule_from_u8(value: u8) -> (fill_rule: Option<FillRule>)
    ensures
        fill_rule == fill_rule_of_code(value),
{
    match value {
        0 => Some(FillRule::EvenOdd),
        1 => Some(FillRule::NonZero),
        2 => Some(FillRule::Positive),
        3 => Some(FillRule::Negative),
        _ => None,
    }
}

/// The description of each status number; unknown numbers get one of their
/// own.
pub open spec fn status_message_spec(status: u8) -> Seq<char> {
    match status {
        0 => "ok"@,
        1 => "required pointer is null"@,
        2 => "invalid path"@,
        3 => "checked arithmetic overflow"@,
        4 => "result contains a non-integral coordinate"@,
        5 => "polygon arrangement did not close"@,
        6 => "invalid operation or fill rule"@,
        7 => "internal error"@,
        8 => "input paths intersect"@,
        9 => "coordinate is not finite"@,
        10 => "invalid offset parameters"@,
        11 => "triangulation failed"@,
        _ => "unknown status"@,
    }
}

/// A static description of a status number.
pub fn status_message(status: u8) -> (text: &'static str)
    ensures
        text@ == status_message_spec(status),
{
    match status {
        0 => "ok",
        1 => "required pointer is null",
        2 => "invalid path",
        3 => "checked arithmetic overflow",
        4 => "result contains a non-integral coordinate",
        5 => "polygon arrangement did not close",
        6 => "invalid operation or fill rule",
        7 => "internal error",
        8 => "input paths intersect",
        9 => "coordinate is not finite",
        10 => "invalid offset parameters",
        11 => "triangulation failed",
        _ => "unknown status",
    }
}

/// Every library error is reported with a failure status: never `Success`, and
/// never a status that only the interface boundary itself produces.
pub proof fn law_error_status_is_failure(error: Error)
    ensures
        status_of_error(error) != KnipsaStatus::Success,
        status_of_error(error) != KnipsaStatus::NullPointer,
        status_of_error(error) != KnipsaStatus::InternalError,
        status_code(status_of_error(error)) != 0,
{
}

} // verus!
