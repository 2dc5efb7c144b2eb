//! Ring closure conventions for exchanging integer polygons with
//! representations that store explicitly closed rings, such as `geo-types`.
//!
//! Paths here close implicitly; an explicit closing point is removed on the
//! way in and added on the way out. An outer ring and its holes stay apart,
//! ring winding is preserved and nothing is validated.

use vstd::prelude::*;

use crate::geometry::Point64;

verus! {

/// An owned integer polygon: one outer ring and its holes.
#[derive(Clone, Debug, PartialEq, Eq)]
pub struct Polygon64 {
    /// The outer ring.
    pub outer: Vec<Point64>,
    /// The holes, each a ring.
    pub holes: Vec<Vec<Point64>>,
}

/// `path` without a repeated closing point.
pub open spec fn trimmed(path: Seq<Point64>) -> Seq<Point64> {
    if path.len() > 1 && path[0] == path.last() {
        path.drop_last()
    } else {
        path
    }
}

/// `path` closed explicitly: its first point appended when it has more than
/// one point and its ends differ.
pub open spec fn closed(path: Seq<Point64>) -> Seq<Point64> {
    if path.len() > 1 && path[0] != path.last() {
        path.push(path[0])
    } else {
        path
    }
}

/// Removes a repeated closing point: the last point goes when a path of more
/// than one point ends where it starts.
pub fn trim_closing_point(path: Vec<Point64>) -> (result: Vec<Point64>)
    ensures
        result@ == trimmed(path@),
{
    let mut path = path;
    let len = path.len();
    if len > 1 && path[0] == path[len - 1] {
        path.pop();
    }
    path
}

/// Closes a path explicitly: appends its first point when it has more than
/// one point and its ends differ.
pub fn closed_line_string(path: &[Point64]) -> (result: Vec<Point64>)
    ensures
        result@ == closed(path@),
{
    let mut points: Vec<Point64> = Vec::new();
    let mut index: usize = 0;
    while index < path.len()
        invariant
            index <= path@.len(),
            points@ == path@.subrange(0, index as int),
        decreases path@.len() - index,
    {
        points.push(path[index]);
        index += 1;
    }
    proof {
        assert(path@.subrange(0, path@.len() as int) =~= path@);
    }
    let len = points.len();
    if len > 1 && points[0] != points[len - 1] {
        let first = points[0];
        points.push(first);
    }
    points
}

/// The rings of a polygon read from another representation, each with a
/// repeated closing point removed.
pub fn polygon64_from_rings(exterior: Vec<Point64>, interiors: Vec<Vec<Point64>>) -> (result: Polygon64)
    ensures
        result.outer@ == trimmed(exterior@),
        result.holes@.len() == interiors@.len(),
        forall|i: int| 0 <= i < result.holes@.len() ==> (#[trigger] result.holes@[i])@ == trimmed(interiors@[i]@),
{
    let outer = trim_closing_point(exterior);
    let mut holes: Vec<Vec<Point64>> = Vec::new();
    let mut index: usize = 0;
    while index < interiors.len()
        invariant
            index <= interiors@.len(),
            holes@.len() == index,
            forall|i: int| 0 <= i < index ==> (#[trigger] holes@[i])@ == trimmed(interiors@[i]@),
        decreases interiors@.len() - index,
    {
        let ring = interiors[index].clone();
        holes.push(trim_closing_point(ring));
        index += 1;
    }
    Polygon64 { outer, holes }
}

/// The rings of a polygon, each explicitly closed, ready to be handed to a
/// representation that stores closed rings.
pub fn rings_of_polygon64(polygon: &Polygon64) -> (result: (Vec<Point64>, Vec<Vec<Point64>>))
    ensures
        result.0@ == closed(polygon.outer@),
        result.1@.len() == polygon.holes@.len(),
        forall|i: int| 0 <= i < polygon.holes@.len() ==> (#[trigger] result.1@[i])@ == closed(polygon.holes@[i]@),
{
    let outer = closed_line_string(polygon.outer.as_slice());
    let mut holes: Vec<Vec<Point64>> = Vec::new();
    let mut index: usize = 0;
    while index < polygon.holes.len()
        invariant
            index <= polygon.holes@.len(),
            holes@.len() == index,
            forall|i: int| 0 <= i < index ==> (#[trigger] holes@[i])@ == closed(polygon.holes@[i]@),
        decreases polygon.holes@.len() - index,
    {
        holes.push(closed_line_string(polygon.holes[index].as_slice()));
        index += 1;
    }
    (outer, holes)
}

/// Whether a ring comes back unchanged from closing then trimming: it has at
/// most one point, or its ends differ.
pub open spec fn survives_round_trip(ring: Seq<Point64>) -> bool {
    ring.len() <= 1 || ring[0] != ring.last()
}

/// Closing a ring and trimming it again gives the ring back exactly when its
/// ends differ or it has at most one point.
pub proof fn lemma_trimmed_closed(ring: Seq<Point64>)
    ensures
        survives_round_trip(ring) ==> trimmed(closed(ring)) == ring,
        !survives_round_trip(ring) ==> trimmed(closed(ring)) == ring.drop_last(),
{
    if ring.len() > 1 && ring[0] != ring.last() {
        let c = ring.push(ring[0]);
        assert(c.drop_last() =~= ring);
    }
}

/// Closing a polygon's rings and trimming them again gives the same polygon,
/// provided no ring repeats its first point at its end.
pub proof fn law_polygon_round_trip(polygon: Polygon64, rings: (Vec<Point64>, Vec<Vec<Point64>>), back: Polygon64)
    requires
        survives_round_trip(polygon.outer@),
        forall|i: int| 0 <= i < polygon.holes@.len() ==> survives_round_trip(#[trigger] polygon.holes@[i]@),
        rings.0@ == closed(polygon.outer@),
        rings.1@.len() == polygon.holes@.len(),
        forall|i: int| 0 <= i < polygon.holes@.len() ==> (#[trigger] rings.1@[i])@ == closed(polygon.holes@[i]@),
        back.outer@ == trimmed(rings.0@),
        back.holes@.len() == rings.1@.len(),
        forall|i: int| 0 <= i < back.holes@.len() ==> (#[trigger] back.holes@[i])@ == trimmed(rings.1@[i]@),
    ensures
        back.outer@ == polygon.outer@,
        back.holes@.len() == polygon.holes@.len(),
        forall|i: int| 0 <= i < back.holes@.len() ==> (#[trigger] back.holes@[i])@ == polygon.holes@[i]@,
{
    lemma_trimmed_closed(polygon.outer@);
    assert forall|i: int| 0 <= i < back.holes@.len() implies (#[trigger] back.holes@[i])@ == polygon.holes@[i]@ by {
        lemma_trimmed_closed(polygon.holes@[i]@);
        assert(survives_round_trip(polygon.holes@[i]@));
        assert(rings.1@[i]@ == closed(polygon.holes@[i]@));
    }
}

} // verus!
