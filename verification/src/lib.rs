//! Exact integer polygon geometry: validation, orientation, point location,
//! path transforms and boolean operations over closed and open paths.

use vstd::prelude::*;

pub mod arrangement;
pub mod bigint;
pub mod benchmark;
pub mod boolean;
pub mod broad_phase;
pub mod complexity;
pub mod error;
pub mod exact;
pub mod faces;
pub mod ffi;
pub mod geo_conversions;
pub mod geometry;
pub mod offset;
pub mod open64;
pub mod open_exact;
pub mod overlay;
pub mod rational;
pub mod request;
pub mod ring_area;
pub mod rings;
pub mod sorting;
pub mod vertex_origin;
pub mod winding;

pub use complexity::{ComplexityLimits, ComplexityResource};
pub use error::{Error, PathValidationError};
pub use geometry::{
    Orientation, Point64, PointLocation, Rect64, clip_to_rect64, normalize_path64, orientation, point_in_polygon,
    reverse_path64, signed_area2, simplify_paths64, translate_path64, trim_collinear64, validate_path64,
    validate_paths64,
};
pub use request::{
    BooleanOutput, BooleanRequest, ClipType, FillRule, boolean_op, difference, difference_path, intersection,
    intersection_path, union, union_path, xor, xor_path,
};

verus! {

/// Describes whether a path's final point connects back to its first point.
///
/// Polygon operations use [`PathKind::Closed`]. A repeated closing point is
/// accepted and removed by the normalization helpers; it is not required.
#[derive(Clone, Copy, Debug, PartialEq, Eq, Structural)]
pub enum PathKind {
    /// A path whose edges wrap from the final point to the first.
    Closed,
    /// A path whose final point is not connected back to its first.
    Open,
}

} // verus!
