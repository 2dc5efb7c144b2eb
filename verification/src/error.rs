//! Errors returned by the geometry operations.

use vstd::prelude::*;

use crate::complexity::ComplexityResource;
use crate::PathKind;

verus! {

/// An error produced while validating or executing a geometry operation.
#[derive(Clone, Copy, Debug, PartialEq, Eq, Structural)]
pub enum Error {
    /// A path does not contain enough vertices for its declared kind.
    InvalidPath {
        /// Whether the path is closed or open.
        kind: PathKind,
        /// The minimum number of vertices required.
        minimum_vertices: usize,
        /// The number of vertices actually supplied.
        actual_vertices: usize,
    },
    /// A floating-point coordinate is NaN or infinite.
    NonFiniteCoordinate {
        /// The zero-based point index within the path.
        point_index: usize,
    },
    /// A checked integer computation could not be represented by `i128`.
    ArithmeticOverflow,
    /// An exact boolean result cannot be represented by the integer API.
    NonIntegralResult,
    /// The arrangement could not be closed into valid output rings.
    TopologyFailure,
    /// An offset option is not geometrically meaningful.
    InvalidOffset,
    /// A triangulation input cannot be triangulated.
    TriangulationFailure,
    /// A set of paths that must be disjoint contains an intersection.
    IntersectingPaths,
    /// An input exceeds a deterministic complexity limit.
    LimitExceeded {
        /// The resource whose limit was exceeded.
        resource: ComplexityResource,
        /// The configured limit.
        limit: usize,
        /// The amount the input requires.
        required: usize,
    },
}

} // verus!

verus! {

impl Error {
    /// A short human-readable description of this error.
    pub fn message(&self) -> (text: &'static str)
        ensures
            text@ == error_message_spec(*self),
    {
        match self {
            Error::InvalidPath { .. } => "path has too few vertices for its kind",
            Error::NonFiniteCoordinate { .. } => "a point contains a non-finite coordinate",
            Error::ArithmeticOverflow => "checked geometry arithmetic overflowed",
            Error::NonIntegralResult => "the exact result contains a non-integral coordinate",
            Error::TopologyFailure => "the polygon arrangement did not close",
            Error::InvalidOffset => "the offset parameters are invalid",
            Error::TriangulationFailure => "the polygon could not be triangulated",
            Error::IntersectingPaths => "the input paths intersect",
            Error::LimitExceeded { .. } => "an input complexity limit was exceeded",
        }
    }
}

/// The description that [`Error::message`] gives for each variant.
pub open spec fn error_message_spec(error: Error) -> Seq<char> {
    match error {
        Error::InvalidPath { .. } => "path has too few vertices for its kind"@,
        Error::NonFiniteCoordinate { .. } => "a point contains a non-finite coordinate"@,
        Error::ArithmeticOverflow => "checked geometry arithmetic overflowed"@,
        Error::NonIntegralResult => "the exact result contains a non-integral coordinate"@,
        Error::TopologyFailure => "the polygon arrangement did not close"@,
        Error::InvalidOffset => "the offset parameters are invalid"@,
        Error::TriangulationFailure => "the polygon could not be triangulated"@,
        Error::IntersectingPaths => "the input paths intersect"@,
        Error::LimitExceeded { .. } => "an input complexity limit was exceeded"@,
    }
}

/// A path-collection validation error with stable input coordinates.
#[derive(Clone, Copy, Debug, PartialEq, Eq, Structural)]
pub struct PathValidationError {
    path_index: usize,
    point_index: Option<usize>,
    error: Error,
}

impl PathValidationError {
    /// Zero-based index of the failing path, as a specification value.
    pub closed spec fn spec_path_index(self) -> usize {
        self.path_index
    }

    /// Zero-based vertex index, as a specification value.
    pub closed spec fn spec_point_index(self) -> Option<usize> {
        self.point_index
    }

    /// The underlying error, as a specification value.
    pub closed spec fn spec_error(self) -> Error {
        self.error
    }

    /// Records the failing path's index with its error; the vertex index is
    /// taken from the error when it identifies one.
    pub fn new(path_index: usize, error: Error) -> (located: Self)
        ensures
            located.spec_path_index() == path_index,
            located.spec_error() == error,
            located.spec_point_index() == match error {
                Error::NonFiniteCoordinate { point_index } => Some(point_index),
                _ => None,
            },
    {
        let point_index = match error {
            Error::NonFiniteCoordinate { point_index } => Some(point_index),
            _ => None,
        };
        PathValidationError { path_index, point_index, error }
    }

    /// Zero-based index of the failing path.
    pub fn path_index(&self) -> (result: usize)
        ensures
            result == self.spec_path_index(),
    {
        self.path_index
    }

    /// Zero-based vertex index when the underlying error identifies one.
    pub fn point_index(&self) -> (result: Option<usize>)
        ensures
            result == self.spec_point_index(),
    {
        self.point_index
    }

    /// Original operation-independent geometry error.
    pub fn error(&self) -> (result: &Error)
        ensures
            *result == self.spec_error(),
    {
        &self.error
    }

    /// Consumes this value and returns the original geometry error.
    pub fn into_error(self) -> (result: Error)
        ensures
            result == self.spec_error(),
    {
        self.error
    }
}

} // verus!
