//! Corner and end styles of offset operations.

use vstd::prelude::*;

verus! {

/// The corner treatment of an offset outline.
#[derive(Clone, Copy, Debug, PartialEq, Eq, Structural)]
pub enum JoinType {
    /// A square corner whose outer extent is capped at roughly two radii.
    Square,
    /// A straight cut between the two offset edges.
    Bevel,
    /// A circular arc around the source vertex.
    Round,
    /// The intersection of the two offset edges, subject to the miter limit.
    Miter,
}

/// The treatment of the ends of an open path.
///
/// [`EndType::Polygon`] is the only closed-path mode. The other variants
/// create a stroked outline around an open polyline.
#[derive(Clone, Copy, Debug, PartialEq, Eq, Structural)]
pub enum EndType {
    /// Treat each path as a closed polygon.
    Polygon,
    /// Join the two sides without treating the path as a stroked line.
    Joined,
    /// Stop at the endpoint without extending it.
    Butt,
    /// Extend the endpoint by one offset radius.
    Square,
    /// Add a semicircular endpoint cap.
    Round,
}

/// The stable number of a join style: 0 to 3 in declaration order.
pub open spec fn join_code(join: JoinType) -> u8 {
    match join {
        JoinType::Square => 0,
        JoinType::Bevel => 1,
        JoinType::Round => 2,
        JoinType::Miter => 3,
    }
}

/// The stable number of an end style: 0 to 4 in declaration order.
pub open spec fn end_code(end: EndType) -> u8 {
    match end {
        EndType::Polygon => 0,
        EndType::Joined => 1,
        EndType::Butt => 2,
        EndType::Square => 3,
        EndType::Round => 4,
    }
}

impl JoinType {
    /// The stable number of this join style.
    pub fn code(self) -> (code: u8)
        ensures
            code == join_code(self),
    {
        match self {
            JoinType::Square => 0,
            JoinType::Bevel => 1,
            JoinType::Round => 2,
            JoinType::Miter => 3,
        }
    }

    /// The join style with a stable number, if there is one.
    pub fn from_code(code: u8) -> (join: Option<JoinType>)
        ensures
            join matches Some(value) ==> join_code(value) == code,
            join is None <==> code > 3,
    {
        match code {
            0 => Some(JoinType::Square),
            1 => Some(JoinType::Bevel),
            2 => Some(JoinType::Round),
            3 => Some(JoinType::Miter),
            _ => None,
        }
    }
}

impl EndType {
    /// The stable number of this end style.
    pub fn code(self) -> (code: u8)
        ensures
            code == end_code(self),
    {
        match self {
            EndType::Polygon => 0,
            EndType::Joined => 1,
            EndType::Butt => 2,
            EndType::Square => 3,
            EndType::Round => 4,
        }
    }

    /// The end style with a stable number, if there is one.
    pub fn from_code(code: u8) -> (end: Option<EndType>)
        ensures
            end matches Some(value) ==> end_code(value) == code,
            end is None <==> code > 4,
    {
        match code {
            0 => Some(EndType::Polygon),
            1 => Some(EndType::Joined),
            2 => Some(EndType::Butt),
            3 => Some(EndType::Square),
            4 => Some(EndType::Round),
            _ => None,
        }
    }
}

/// Decoding a style's number gives the style back.
pub proof fn law_style_codes_round_trip(join: JoinType, end: EndType)
    ensures
        join_code(join) <= 3,
        end_code(end) <= 4,
        forall|other: JoinType| join_code(other) == join_code(join) ==> other == join,
        forall|other: EndType| end_code(other) == end_code(end) ==> other == end,
{
}

} // verus!
