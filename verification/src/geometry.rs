//! Checked integer geometry primitives.

use vstd::prelude::*;

use crate::error::Error;
use crate::PathKind;

verus! {

/// An integer point used by the exact-coordinate API.
#[derive(Clone, Copy, Debug, Default, PartialEq, Eq, Hash, Structural)]
pub struct Point64 {
    /// Horizontal coordinate.
    pub x: i64,
    /// Vertical coordinate.
    pub y: i64,
}

impl Point64 {
    /// Creates an integer point.
    pub fn new(x: i64, y: i64) -> (point: Self)
        ensures
            point.x == x,
            point.y == y,
    {
        Point64 { x, y }
    }
}

/// The minimum number of vertices of a non-empty path of the given kind.
pub open spec fn minimum_vertices_spec(kind: PathKind) -> nat {
    match kind {
        PathKind::Closed => 3,
        PathKind::Open => 2,
    }
}

/// A path is valid when it is empty or has at least the minimum number of
/// vertices for its kind.
pub open spec fn path_valid(path: Seq<Point64>, kind: PathKind) -> bool {
    path.len() == 0 || path.len() >= minimum_vertices_spec(kind)
}

/// The error reported for an invalid path.
pub open spec fn invalid_path_error(path: Seq<Point64>, kind: PathKind) -> Error {
    Error::InvalidPath {
        kind,
        minimum_vertices: minimum_vertices_spec(kind) as usize,
        actual_vertices: path.len() as usize,
    }
}

/// Validates an integer path's shape contract.
///
/// Empty paths are valid and represent no geometry. A closed path requires at
/// least three points; an open path requires at least two.
pub fn validate_path64(path: &[Point64], kind: PathKind) -> (result: Result<(), Error>)
    ensures
        result is Ok <==> path_valid(path@, kind),
        result is Err ==> result == Err::<(), Error>(invalid_path_error(path@, kind)),
{
    let minimum_vertices: usize = match kind {
        PathKind::Closed => 3,
        PathKind::Open => 2,
    };
    if path.len() == 0 || path.len() >= minimum_vertices {
        Ok(())
    } else {
        Err(Error::InvalidPath { kind, minimum_vertices, actual_vertices: path.len() })
    }
}

/// The index of the first invalid path, if any.
pub open spec fn first_invalid_path(paths: Seq<Vec<Point64>>, kind: PathKind, i: int) -> bool {
    0 <= i < paths.len() && !path_valid(paths[i]@, kind) && forall|j: int|
        0 <= j < i ==> path_valid(#[trigger] paths[j]@, kind)
}

/// Validates every integer path in a collection.
///
/// Returns the error of the first invalid path.
pub fn validate_paths64(paths: &[Vec<Point64>], kind: PathKind) -> (result: Result<(), Error>)
    ensures
        result is Ok <==> forall|i: int| 0 <= i < paths@.len() ==> path_valid(#[trigger] paths@[i]@, kind),
        result is Err ==> exists|i: int|
            first_invalid_path(paths@, kind, i) && result == Err::<(), Error>(
                invalid_path_error(paths@[i]@, kind),
            ),
{
    let mut index: usize = 0;
    while index < paths.len()
        invariant
            index <= paths@.len(),
            forall|j: int| 0 <= j < index ==> path_valid(#[trigger] paths@[j]@, kind),
        decreases paths@.len() - index,
    {
        let checked = validate_path64(paths[index].as_slice(), kind);
        if checked.is_err() {
            assert(first_invalid_path(paths@, kind, index as int));
            return checked;
        }
        index += 1;
    }
    Ok(())
}

} // verus!

verus! {

/// The orientation of three points in Cartesian coordinates.
///
/// For points `a`, `b`, and `c`, the result describes the turn from `a -> b`
/// to `b -> c`.
#[derive(Clone, Copy, Debug, PartialEq, Eq, Structural)]
pub enum Orientation {
    /// The points turn clockwise.
    Clockwise,
    /// The points are collinear.
    Collinear,
    /// The points turn counter-clockwise.
    CounterClockwise,
}

/// The result of testing a point against a closed path.
#[derive(Clone, Copy, Debug, PartialEq, Eq, Structural)]
pub enum PointLocation {
    /// The point is outside the filled path.
    Outside,
    /// The point is inside the filled path.
    Inside,
    /// The point lies on the path boundary.
    Boundary,
}

/// Twice the signed area of the triangle `a, b, c`: the cross product of
/// `b - a` and `c - a`.
pub open spec fn cross_value(a: Point64, b: Point64, c: Point64) -> int {
    (b.x - a.x) * (c.y - a.y) - (b.y - a.y) * (c.x - a.x)
}

/// Whether an integer fits in `i128`.
pub open spec fn fits_i128(value: int) -> bool {
    i128::MIN <= value <= i128::MAX
}

/// Whether the cross product of `a, b, c` is computed without leaving `i128`
/// in its two products and their difference.
pub open spec fn cross_fits(a: Point64, b: Point64, c: Point64) -> bool {
    &&& fits_i128((b.x - a.x) * (c.y - a.y))
    &&& fits_i128((b.y - a.y) * (c.x - a.x))
    &&& fits_i128(cross_value(a, b, c))
}

/// The sign of an integer: -1, 0 or 1.
pub open spec fn sign(value: int) -> int {
    if value > 0 {
        1
    } else if value < 0 {
        -1
    } else {
        0
    }
}

/// The orientation that the sign of the cross product denotes.
pub open spec fn orientation_spec(a: Point64, b: Point64, c: Point64) -> Orientation {
    if cross_value(a, b, c) < 0 {
        Orientation::Clockwise
    } else if cross_value(a, b, c) == 0 {
        Orientation::Collinear
    } else {
        Orientation::CounterClockwise
    }
}

fn magnitude(value: i128) -> (result: u128)
    requires
        value > i128::MIN,
    ensures
        result == (if value < 0 { -(value as int) } else { value as int }),
{
    if value < 0 {
        (-value) as u128
    } else {
        value as u128
    }
}

fn sign_of(value: i128) -> (result: i8)
    ensures
        result == sign(value as int),
{
    if value > 0 {
        1
    } else if value < 0 {
        -1
    } else {
        0
    }
}

proof fn lemma_signed_product(a: int, b: int, ma: int, mb: int, sa: int, sb: int)
    requires
        ma == if a < 0 { -a } else { a },
        mb == if b < 0 { -b } else { b },
        sa == sign(a),
        sb == sign(b),
    ensures
        a * b == (sa * sb) * (ma * mb),
        ma * mb >= 0,
        (sa * sb == 0) <==> (a * b == 0),
        sa * sb == sign(a * b),
{
    assert(a * b == (sa * sb) * (ma * mb)) by (nonlinear_arith)
        requires
            ma == if a < 0 { -a } else { a },
            mb == if b < 0 { -b } else { b },
            sa == (if a > 0 { 1int } else if a < 0 { -1int } else { 0int }),
            sb == (if b > 0 { 1int } else if b < 0 { -1int } else { 0int }),
    ;
    assert(ma * mb >= 0) by (nonlinear_arith)
        requires
            ma >= 0,
            mb >= 0,
    ;
    assert(sa * sb == sign(a * b)) by (nonlinear_arith)
        requires
            sa == (if a > 0 { 1int } else if a < 0 { -1int } else { 0int }),
            sb == (if b > 0 { 1int } else if b < 0 { -1int } else { 0int }),
    ;
}

proof fn lemma_magnitude_product_bound(ma: int, mb: int)
    requires
        0 <= ma <= 0xffff_ffff_ffff_ffff,
        0 <= mb <= 0xffff_ffff_ffff_ffff,
    ensures
        0 <= ma * mb <= u128::MAX,
{
    assert(0 <= ma * mb <= 0xffff_ffff_ffff_ffff * 0xffff_ffff_ffff_ffff) by (nonlinear_arith)
        requires
            0 <= ma <= 0xffff_ffff_ffff_ffff,
            0 <= mb <= 0xffff_ffff_ffff_ffff,
    ;
}

fn sign_product(first: i8, second: i8) -> (result: i8)
    requires
        -1 <= first <= 1,
        -1 <= second <= 1,
    ensures
        result == first * second,
{
    assert(first * second == if first == 0 || second == 0 {
        0
    } else if first == second {
        1
    } else {
        -1
    }) by (nonlinear_arith)
        requires
            -1 <= first <= 1,
            -1 <= second <= 1,
    ;
    if first == 0 || second == 0 {
        0
    } else if first == second {
        1
    } else {
        -1
    }
}

/// The sign of `p - q` for `p = sp * mp` and `q = sq * mq`, decided from the
/// signs and magnitudes alone.
spec fn compare_signed(sp: int, sq: int, mp: int, mq: int) -> int {
    if sp > sq {
        1
    } else if sp < sq {
        -1
    } else if sp == 0 {
        0
    } else if sp > 0 {
        sign(mp - mq)
    } else {
        sign(mq - mp)
    }
}

proof fn lemma_compare_signed(p: int, q: int, sp: int, sq: int, mp: int, mq: int)
    requires
        p == sp * mp,
        q == sq * mq,
        sp == sign(p),
        sq == sign(q),
        mp >= 0,
        mq >= 0,
    ensures
        compare_signed(sp, sq, mp, mq) == sign(p - q),
{
    if sp == 1 {
        assert(p == mp) by (nonlinear_arith)
            requires
                p == sp * mp,
                sp == 1,
        ;
    } else if sp == -1 {
        assert(p == -mp) by (nonlinear_arith)
            requires
                p == sp * mp,
                sp == -1,
        ;
    }
    if sq == 1 {
        assert(q == mq) by (nonlinear_arith)
            requires
                q == sq * mq,
                sq == 1,
        ;
    } else if sq == -1 {
        assert(q == -mq) by (nonlinear_arith)
            requires
                q == sq * mq,
                sq == -1,
        ;
    }
}

/// The exact sign of the cross product of `b - a` and `c - a`, for every
/// `i64` input.
pub fn cross_sign(a: Point64, b: Point64, c: Point64) -> (result: i8)
    ensures
        result == sign(cross_value(a, b, c)),
{
    let first_x = (b.x as i128) - (a.x as i128);
    let first_y = (b.y as i128) - (a.y as i128);
    let second_x = (c.x as i128) - (a.x as i128);
    let second_y = (c.y as i128) - (a.y as i128);
    let magnitude_fx = magnitude(first_x);
    let magnitude_sy = magnitude(second_y);
    let magnitude_fy = magnitude(first_y);
    let magnitude_sx = magnitude(second_x);
    proof {
        lemma_magnitude_product_bound(magnitude_fx as int, magnitude_sy as int);
        lemma_magnitude_product_bound(magnitude_fy as int, magnitude_sx as int);
    }
    let p_magnitude = magnitude_fx * magnitude_sy;
    let q_magnitude = magnitude_fy * magnitude_sx;
    let p_sign = sign_product(sign_of(first_x), sign_of(second_y));
    let q_sign = sign_product(sign_of(first_y), sign_of(second_x));
    proof {
        lemma_signed_product(
            first_x as int,
            second_y as int,
            magnitude_fx as int,
            magnitude_sy as int,
            sign(first_x as int),
            sign(second_y as int),
        );
        lemma_signed_product(
            first_y as int,
            second_x as int,
            magnitude_fy as int,
            magnitude_sx as int,
            sign(first_y as int),
            sign(second_x as int),
        );
        lemma_compare_signed(
            (first_x as int) * (second_y as int),
            (first_y as int) * (second_x as int),
            p_sign as int,
            q_sign as int,
            p_magnitude as int,
            q_magnitude as int,
        );
    }
    if p_sign > q_sign {
        1
    } else if p_sign < q_sign {
        -1
    } else if p_sign == 0 {
        0
    } else if p_sign > 0 {
        if p_magnitude > q_magnitude {
            1
        } else if p_magnitude < q_magnitude {
            -1
        } else {
            0
        }
    } else {
        if p_magnitude > q_magnitude {
            -1
        } else if p_magnitude < q_magnitude {
            1
        } else {
            0
        }
    }
}

/// Returns the cross product of `b - a` and `c - a` computed with checked
/// `i128` arithmetic.
pub fn checked_cross(a: Point64, b: Point64, c: Point64) -> (result: Result<i128, Error>)
    ensures
        result is Ok <==> cross_fits(a, b, c),
        result matches Ok(value) ==> value == cross_value(a, b, c),
        result is Err ==> result == Err::<i128, Error>(Error::ArithmeticOverflow),
{
    let first_x = (b.x as i128) - (a.x as i128);
    let first_y = (b.y as i128) - (a.y as i128);
    let second_x = (c.x as i128) - (a.x as i128);
    let second_y = (c.y as i128) - (a.y as i128);
    let left = match first_x.checked_mul(second_y) {
        Some(value) => value,
        None => return Err(Error::ArithmeticOverflow),
    };
    let right = match first_y.checked_mul(second_x) {
        Some(value) => value,
        None => return Err(Error::ArithmeticOverflow),
    };
    match left.checked_sub(right) {
        Some(value) => Ok(value),
        None => Err(Error::ArithmeticOverflow),
    }
}

/// Returns the orientation of three integer points.
///
/// Predicates are exact across the complete `i64` coordinate range, so the
/// result is always `Ok`.
pub fn orientation(a: Point64, b: Point64, c: Point64) -> (result: Result<Orientation, Error>)
    ensures
        result == Ok::<Orientation, Error>(orientation_spec(a, b, c)),
{
    let s = cross_sign(a, b, c);
    if s < 0 {
        Ok(Orientation::Clockwise)
    } else if s == 0 {
        Ok(Orientation::Collinear)
    } else {
        Ok(Orientation::CounterClockwise)
    }
}

/// Whether `point` lies on the closed segment from `a` to `b`.
pub open spec fn on_segment_spec(point: Point64, a: Point64, b: Point64) -> bool {
    &&& cross_value(a, b, point) == 0
    &&& (if a.x <= b.x { a.x <= point.x <= b.x } else { b.x <= point.x <= a.x })
    &&& (if a.y <= b.y { a.y <= point.y <= b.y } else { b.y <= point.y <= a.y })
}

/// Whether `point` lies on the closed segment from `a` to `b`, exactly.
pub fn point_on_segment(point: Point64, a: Point64, b: Point64) -> (result: bool)
    ensures
        result == on_segment_spec(point, a, b),
{
    if cross_sign(a, b, point) != 0 {
        return false;
    }
    let x_in = if a.x <= b.x {
        a.x <= point.x && point.x <= b.x
    } else {
        b.x <= point.x && point.x <= a.x
    };
    let y_in = if a.y <= b.y {
        a.y <= point.y && point.y <= b.y
    } else {
        b.y <= point.y && point.y <= a.y
    };
    x_in && y_in
}

} // verus!

verus! {

/// The index of the vertex that follows vertex `i` in a closed path of
/// `len` vertices.
pub open spec fn next_index(len: nat, i: int) -> int {
    if i + 1 == len {
        0
    } else {
        i + 1
    }
}

/// Whether edge `a -> b` crosses the horizontal ray from `point` to the right,
/// counted with the half-open rule on `y`.
pub open spec fn crosses_right(point: Point64, a: Point64, b: Point64) -> bool {
    &&& (a.y > point.y) != (b.y > point.y)
    &&& if b.y > a.y {
        cross_value(a, b, point) > 0
    } else {
        cross_value(a, b, point) < 0
    }
}

/// The parity of the rightward crossings of the first `n` edges of `path`.
pub open spec fn crossing_parity(point: Point64, path: Seq<Point64>, n: nat) -> bool
    decreases n,
{
    if n == 0 {
        false
    } else {
        let i = n - 1;
        crossing_parity(point, path, (n - 1) as nat) != crosses_right(
            point,
            path[i],
            path[next_index(path.len(), i)],
        )
    }
}

/// Whether `point` lies on one of the first `n` edges of the closed `path`.
pub open spec fn on_boundary_prefix(point: Point64, path: Seq<Point64>, n: int) -> bool {
    exists|i: int|
        0 <= i < n && #[trigger] on_segment_spec(point, path[i], path[next_index(path.len(), i)])
}

/// Even-odd classification of `point` against the closed `path`.
pub open spec fn location_spec(point: Point64, path: Seq<Point64>) -> PointLocation {
    if path.len() == 0 {
        PointLocation::Outside
    } else if on_boundary_prefix(point, path, path.len() as int) {
        PointLocation::Boundary
    } else if crossing_parity(point, path, path.len()) {
        PointLocation::Inside
    } else {
        PointLocation::Outside
    }
}

/// Classifies an integer point against a closed path using the even-odd rule.
///
/// An empty path has no filled region, so every point is outside. A non-empty
/// path with fewer than three points is rejected. Predicates are exact across
/// the complete `i64` coordinate range.
pub fn point_in_polygon(point: Point64, path: &[Point64]) -> (result: Result<PointLocation, Error>)
    ensures
        !path_valid(path@, PathKind::Closed) ==> result == Err::<PointLocation, Error>(
            invalid_path_error(path@, PathKind::Closed),
        ),
        path_valid(path@, PathKind::Closed) ==> result == Ok::<PointLocation, Error>(
            location_spec(point, path@),
        ),
{
    match validate_path64(path, PathKind::Closed) {
        Err(error) => return Err(error),
        Ok(()) => {},
    }
    let len = path.len();
    if len == 0 {
        return Ok(PointLocation::Outside);
    }
    let mut inside = false;
    let mut index: usize = 0;
    while index < len
        invariant
            len == path@.len(),
            len > 0,
            path_valid(path@, PathKind::Closed),
            index <= len,
            inside == crossing_parity(point, path@, index as nat),
            !on_boundary_prefix(point, path@, index as int),
        decreases len - index,
    {
        let a = path[index];
        let next = if index + 1 == len {
            0
        } else {
            index + 1
        };
        let b = path[next];
        if point_on_segment(point, a, b) {
            assert(next_index(len as nat, index as int) == next as int);
            assert(on_segment_spec(point, path@[index as int], path@[next_index(len as nat, index as int)]));
            assert(on_boundary_prefix(point, path@, len as int));
            return Ok(PointLocation::Boundary);
        }
        if (a.y > point.y) != (b.y > point.y) {
            let cross = cross_sign(a, b, point);
            let crosses = if b.y > a.y {
                cross > 0
            } else {
                cross < 0
            };
            if crosses {
                inside = !inside;
            }
        }
        index += 1;
    }
    if inside {
        Ok(PointLocation::Inside)
    } else {
        Ok(PointLocation::Outside)
    }
}

/// The term that edge `i` contributes to twice the signed area.
pub open spec fn area_term(path: Seq<Point64>, i: int) -> int {
    let a = path[i];
    let b = path[next_index(path.len(), i)];
    a.x * b.y - a.y * b.x
}

/// The sum of the first `n` area terms of `path`.
pub open spec fn area_prefix(path: Seq<Point64>, n: nat) -> int
    decreases n,
{
    if n == 0 {
        0
    } else {
        area_prefix(path, (n - 1) as nat) + area_term(path, n - 1)
    }
}

/// Twice the signed area of a path (the shoelace sum); zero for fewer than
/// three points.
pub open spec fn area2_spec(path: Seq<Point64>) -> int {
    if path.len() < 3 {
        0
    } else {
        area_prefix(path, path.len())
    }
}

/// Whether every area term and every partial sum of the first `n` terms fits
/// in `i128`.
pub open spec fn area_fits(path: Seq<Point64>, n: nat) -> bool {
    forall|k: nat|
        k < n ==> fits_i128(#[trigger] area_term(path, k as int)) && fits_i128(
            area_prefix(path, k + 1),
        )
}

/// Returns twice the signed area of an integer path using checked `i128`
/// arithmetic.
///
/// A positive result means counter-clockwise winding; a negative result means
/// clockwise winding. Paths with fewer than three points have area zero.
pub fn signed_area2(path: &[Point64]) -> (result: Result<i128, Error>)
    ensures
        path@.len() < 3 ==> result == Ok::<i128, Error>(0),
        path@.len() >= 3 ==> (result is Ok <==> area_fits(path@, path@.len())),
        result matches Ok(value) ==> value == area2_spec(path@),
        result is Err ==> result == Err::<i128, Error>(Error::ArithmeticOverflow),
{
    let len = path.len();
    if len < 3 {
        return Ok(0);
    }
    let mut area: i128 = 0;
    let mut index: usize = 0;
    while index < len
        invariant
            len == path@.len(),
            len >= 3,
            index <= len,
            area == area_prefix(path@, index as nat),
            area_fits(path@, index as nat),
        decreases len - index,
    {
        let a = path[index];
        let next = if index + 1 == len {
            0
        } else {
            index + 1
        };
        let b = path[next];
        proof {
            lemma_i64_product_fits(a.x as int, b.y as int);
            lemma_i64_product_fits(a.y as int, b.x as int);
        }
        let left = (a.x as i128) * (b.y as i128);
        let right = (a.y as i128) * (b.x as i128);
        let term = match left.checked_sub(right) {
            Some(value) => value,
            None => {
                assert(!fits_i128(area_term(path@, index as int)));
                return Err(Error::ArithmeticOverflow);
            },
        };
        area = match area.checked_add(term) {
            Some(value) => value,
            None => {
                assert(!fits_i128(area_prefix(path@, (index + 1) as nat)));
                return Err(Error::ArithmeticOverflow);
            },
        };
        assert forall|k: nat| k < index + 1 implies fits_i128(
            #[trigger] area_term(path@, k as int),
        ) && fits_i128(area_prefix(path@, k + 1)) by {
            if k < index {
            }
        }
        index += 1;
    }
    Ok(area)
}

proof fn lemma_i64_product_fits(a: int, b: int)
    requires
        i64::MIN <= a <= i64::MAX,
        i64::MIN <= b <= i64::MAX,
    ensures
        fits_i128(a * b),
{
    assert(-0x4000_0000_0000_0000_0000_0000_0000_0000 <= a * b <= 0x4000_0000_0000_0000_0000_0000_0000_0000) by (nonlinear_arith)
        requires
            -0x8000_0000_0000_0000 <= a <= 0x7fff_ffff_ffff_ffff,
            -0x8000_0000_0000_0000 <= b <= 0x7fff_ffff_ffff_ffff,
    ;
}

} // verus!

verus! {

/// `path` with every run of consecutive equal points collapsed to one point.
pub open spec fn dedup_consecutive(path: Seq<Point64>) -> Seq<Point64>
    decreases path.len(),
{
    if path.len() == 0 {
        Seq::empty()
    } else {
        let prefix = dedup_consecutive(path.drop_last());
        if prefix.len() > 0 && prefix.last() == path.last() {
            prefix
        } else {
            prefix.push(path.last())
        }
    }
}

/// `path` without consecutive duplicates and, for a closed path, without a
/// repeated closing point.
pub open spec fn normalize_spec(path: Seq<Point64>, kind: PathKind) -> Seq<Point64> {
    let deduped = dedup_consecutive(path);
    if kind == PathKind::Closed && deduped.len() > 1 && deduped[0] == deduped.last() {
        deduped.drop_last()
    } else {
        deduped
    }
}

/// Removes consecutive duplicates and, for closed paths, a repeated closing
/// point. The input is never modified.
///
/// This is a shape normalization helper, not a validity check: a normalized
/// path can still be too short or collinear for a particular operation.
pub fn normalize_path64(path: &[Point64], kind: PathKind) -> (normalized: Vec<Point64>)
    ensures
        normalized@ == normalize_spec(path@, kind),
{
    let mut normalized: Vec<Point64> = Vec::new();
    let mut index: usize = 0;
    while index < path.len()
        invariant
            index <= path@.len(),
            normalized@ == dedup_consecutive(path@.subrange(0, index as int)),
        decreases path@.len() - index,
    {
        let point = path[index];
        proof {
            assert(path@.subrange(0, index + 1).drop_last() =~= path@.subrange(0, index as int));
        }
        let len = normalized.len();
        if len == 0 || normalized[len - 1] != point {
            normalized.push(point);
        }
        index += 1;
    }
    proof {
        assert(path@.subrange(0, path@.len() as int) =~= path@);
    }
    let len = normalized.len();
    if kind == PathKind::Closed && len > 1 && normalized[0] == normalized[len - 1] {
        normalized.pop();
    }
    normalized
}

/// Returns a reversed copy of an integer path.
pub fn reverse_path64(path: &[Point64]) -> (reversed: Vec<Point64>)
    ensures
        reversed@ == path@.reverse(),
{
    let len = path.len();
    let mut reversed: Vec<Point64> = Vec::new();
    let mut index: usize = 0;
    while index < len
        invariant
            len == path@.len(),
            index <= len,
            reversed@.len() == index,
            forall|j: int| 0 <= j < index ==> #[trigger] reversed@[j] == path@[len - 1 - j],
        decreases len - index,
    {
        reversed.push(path[len - 1 - index]);
        index += 1;
    }
    assert(reversed@ =~= path@.reverse());
    reversed
}

/// Whether every point of `path` stays in the `i64` range when translated by
/// `(dx, dy)`.
pub open spec fn translation_fits(path: Seq<Point64>, dx: i64, dy: i64) -> bool {
    forall|i: int|
        0 <= i < path.len() ==> i64::MIN <= #[trigger] path[i].x + dx <= i64::MAX && i64::MIN
            <= path[i].y + dy <= i64::MAX
}

/// Translates an integer path with checked coordinate arithmetic.
pub fn translate_path64(path: &[Point64], dx: i64, dy: i64) -> (result: Result<Vec<Point64>, Error>)
    ensures
        result is Ok <==> translation_fits(path@, dx, dy),
        result is Err ==> result == Err::<Vec<Point64>, Error>(Error::ArithmeticOverflow),
        result matches Ok(moved) ==> moved@.len() == path@.len() && forall|i: int|
            0 <= i < path@.len() ==> (#[trigger] moved@[i]).x == path@[i].x + dx && moved@[i].y
                == path@[i].y + dy,
{
    let mut moved: Vec<Point64> = Vec::new();
    let mut index: usize = 0;
    while index < path.len()
        invariant
            index <= path@.len(),
            moved@.len() == index,
            forall|j: int|
                0 <= j < index ==> i64::MIN <= #[trigger] path@[j].x + dx <= i64::MAX && i64::MIN
                    <= path@[j].y + dy <= i64::MAX,
            forall|j: int|
                0 <= j < index ==> (#[trigger] moved@[j]).x == path@[j].x + dx && moved@[j].y
                    == path@[j].y + dy,
        decreases path@.len() - index,
    {
        let point = path[index];
        let x = match point.x.checked_add(dx) {
            Some(value) => value,
            None => return Err(Error::ArithmeticOverflow),
        };
        let y = match point.y.checked_add(dy) {
            Some(value) => value,
            None => return Err(Error::ArithmeticOverflow),
        };
        moved.push(Point64 { x, y });
        index += 1;
    }
    Ok(moved)
}

/// An axis-aligned integer rectangle.
#[derive(Clone, Copy, Debug, Default, PartialEq, Eq, Hash, Structural)]
pub struct Rect64 {
    /// Inclusive lower horizontal bound.
    pub min_x: i64,
    /// Inclusive lower vertical bound.
    pub min_y: i64,
    /// Inclusive upper horizontal bound.
    pub max_x: i64,
    /// Inclusive upper vertical bound.
    pub max_y: i64,
}

impl Rect64 {
    /// Creates a rectangle from two opposite corners.
    ///
    /// The bounds are normalized, so the corner order does not matter.
    pub fn new(first_x: i64, first_y: i64, second_x: i64, second_y: i64) -> (rect: Self)
        ensures
            rect.min_x == if first_x <= second_x { first_x } else { second_x },
            rect.max_x == if first_x <= second_x { second_x } else { first_x },
            rect.min_y == if first_y <= second_y { first_y } else { second_y },
            rect.max_y == if first_y <= second_y { second_y } else { first_y },
    {
        let (min_x, max_x) = if first_x <= second_x {
            (first_x, second_x)
        } else {
            (second_x, first_x)
        };
        let (min_y, max_y) = if first_y <= second_y {
            (first_y, second_y)
        } else {
            (second_y, first_y)
        };
        Rect64 { min_x, min_y, max_x, max_y }
    }

    /// The four corners, counter-clockwise from the lower-left corner.
    pub open spec fn corners(self) -> Seq<Point64> {
        seq![
            Point64 { x: self.min_x, y: self.min_y },
            Point64 { x: self.max_x, y: self.min_y },
            Point64 { x: self.max_x, y: self.max_y },
            Point64 { x: self.min_x, y: self.max_y },
        ]
    }

    /// The rectangle as a closed path of its four corners.
    pub fn path(self) -> (path: Vec<Point64>)
        ensures
            path@ == self.corners(),
    {
        let mut path: Vec<Point64> = Vec::new();
        path.push(Point64 { x: self.min_x, y: self.min_y });
        path.push(Point64 { x: self.max_x, y: self.min_y });
        path.push(Point64 { x: self.max_x, y: self.max_y });
        path.push(Point64 { x: self.min_x, y: self.max_y });
        assert(path@ =~= self.corners());
        path
    }
}

} // verus!

verus! {

/// Whether `current` lies on the segment from `previous` to `next` without
/// reversing direction; `None` when the checked `i128` arithmetic overflows.
pub open spec fn collinear_between_spec(previous: Point64, current: Point64, next: Point64) -> Option<bool> {
    if !cross_fits(previous, current, next) {
        None
    } else if cross_value(previous, current, next) != 0 {
        Some(false)
    } else {
        let dot_x = (current.x - previous.x) * (next.x - current.x);
        let dot_y = (current.y - previous.y) * (next.y - current.y);
        if !fits_i128(dot_x) || !fits_i128(dot_y) || !fits_i128(dot_x + dot_y) {
            None
        } else {
            Some(dot_x + dot_y >= 0)
        }
    }
}

/// Whether `current` is a redundant collinear vertex between its neighbours.
pub fn collinear_between64(previous: Point64, current: Point64, next: Point64) -> (result: Result<bool, Error>)
    ensures
        match collinear_between_spec(previous, current, next) {
            Some(value) => result == Ok::<bool, Error>(value),
            None => result == Err::<bool, Error>(Error::ArithmeticOverflow),
        },
{
    let cross = match checked_cross(previous, current, next) {
        Ok(value) => value,
        Err(error) => return Err(error),
    };
    if cross != 0 {
        return Ok(false);
    }
    let first_x = (current.x as i128) - (previous.x as i128);
    let first_y = (current.y as i128) - (previous.y as i128);
    let second_x = (next.x as i128) - (current.x as i128);
    let second_y = (next.y as i128) - (current.y as i128);
    let left = match first_x.checked_mul(second_x) {
        Some(value) => value,
        None => return Err(Error::ArithmeticOverflow),
    };
    let right = match first_y.checked_mul(second_y) {
        Some(value) => value,
        None => return Err(Error::ArithmeticOverflow),
    };
    match left.checked_add(right) {
        Some(dot) => Ok(dot >= 0),
        None => Err(Error::ArithmeticOverflow),
    }
}

/// The index of the vertex before vertex `i` in a closed path of `len`
/// vertices.
pub open spec fn prev_index(len: nat, i: int) -> int {
    if i == 0 {
        len - 1
    } else {
        i - 1
    }
}

/// Whether vertex `i` of `points` is removed by one trimming pass.
pub open spec fn removable_spec(points: Seq<Point64>, kind: PathKind, i: int) -> Option<bool> {
    match kind {
        PathKind::Closed => collinear_between_spec(
            points[prev_index(points.len(), i)],
            points[i],
            points[next_index(points.len(), i)],
        ),
        PathKind::Open => if 0 < i && i + 1 < points.len() {
            collinear_between_spec(points[i - 1], points[i], points[i + 1])
        } else {
            Some(false)
        },
    }
}

/// The vertices among the first `n` that one trimming pass keeps.
pub open spec fn kept_prefix(points: Seq<Point64>, kind: PathKind, n: nat) -> Seq<Point64>
    decreases n,
{
    if n == 0 {
        Seq::empty()
    } else {
        let prefix = kept_prefix(points, kind, (n - 1) as nat);
        if removable_spec(points, kind, n - 1) == Some(true) {
            prefix
        } else {
            prefix.push(points[n - 1])
        }
    }
}

/// Whether a trimming pass over `points` overflows at some vertex.
pub open spec fn pass_overflows(points: Seq<Point64>, kind: PathKind) -> bool {
    exists|i: int| 0 <= i < points.len() && #[trigger] removable_spec(points, kind, i) is None
}

/// Repeats trimming passes until none removes a vertex; `None` when a pass
/// overflows.
pub open spec fn trim_spec(points: Seq<Point64>, kind: PathKind) -> Option<Seq<Point64>>
    decreases points.len(),
{
    if points.len() < 3 {
        Some(points)
    } else if pass_overflows(points, kind) {
        None
    } else {
        let cleaned = kept_prefix(points, kind, points.len());
        if cleaned.len() < points.len() {
            trim_spec(cleaned, kind)
        } else {
            Some(points)
        }
    }
}

/// A pass that keeps every one of the first `n` vertices found none of them
/// removable.
proof fn lemma_kept_all(points: Seq<Point64>, kind: PathKind, n: nat)
    requires
        kept_prefix(points, kind, n).len() == n,
    ensures
        forall|i: int| 0 <= i < n ==> #[trigger] removable_spec(points, kind, i) != Some(true),
    decreases n,
{
    if n > 0 {
        lemma_kept_prefix_len(points, kind, (n - 1) as nat);
        assert(removable_spec(points, kind, n - 1) != Some(true));
        lemma_kept_all(points, kind, (n - 1) as nat);
    }
}

/// Trimming stops at a fixed point: when it succeeds, no vertex of its
/// result (of three or more vertices) is removable.
pub proof fn law_trim_reaches_fixed_point(points: Seq<Point64>, kind: PathKind)
    requires
        trim_spec(points, kind) is Some,
    ensures
        trim_spec(points, kind)->Some_0.len() >= 3 ==> forall|i: int|
            0 <= i < trim_spec(points, kind)->Some_0.len() ==> #[trigger] removable_spec(
                trim_spec(points, kind)->Some_0,
                kind,
                i,
            ) != Some(true),
    decreases points.len(),
{
    if points.len() >= 3 && !pass_overflows(points, kind) {
        let cleaned = kept_prefix(points, kind, points.len());
        lemma_kept_prefix_len(points, kind, points.len());
        if cleaned.len() < points.len() {
            law_trim_reaches_fixed_point(cleaned, kind);
        } else {
            lemma_kept_all(points, kind, points.len());
        }
    }
}

/// Trimming the trimmed points again changes nothing.
pub proof fn law_trim_idempotent(points: Seq<Point64>, kind: PathKind)
    requires
        trim_spec(points, kind) is Some,
    ensures
        trim_spec(trim_spec(points, kind)->Some_0, kind) == trim_spec(points, kind),
    decreases points.len(),
{
    if points.len() >= 3 && !pass_overflows(points, kind) {
        let cleaned = kept_prefix(points, kind, points.len());
        if cleaned.len() < points.len() {
            law_trim_idempotent(cleaned, kind);
        }
    }
}

/// One pass over an open path keeps its first point, and, once it reaches
/// the last point, ends with it.
proof fn lemma_kept_open_ends(points: Seq<Point64>, n: nat)
    requires
        points.len() >= 2,
        1 <= n <= points.len(),
    ensures
        kept_prefix(points, PathKind::Open, n).len() >= 1,
        kept_prefix(points, PathKind::Open, n)[0] == points[0],
        n == points.len() ==> kept_prefix(points, PathKind::Open, n).len() >= 2 && kept_prefix(
            points,
            PathKind::Open,
            n,
        ).last() == points.last(),
    decreases n,
{
    if n == 1 {
        assert(kept_prefix(points, PathKind::Open, 0) =~= Seq::<Point64>::empty());
        assert(removable_spec(points, PathKind::Open, 0) == Some(false));
    } else {
        lemma_kept_open_ends(points, (n - 1) as nat);
        if n == points.len() {
            assert(removable_spec(points, PathKind::Open, n - 1) == Some(false));
        }
    }
}

/// Trimming an open path keeps its two endpoints.
pub proof fn law_trim_keeps_open_ends(points: Seq<Point64>)
    requires
        points.len() >= 2,
        trim_spec(points, PathKind::Open) is Some,
    ensures
        trim_spec(points, PathKind::Open)->Some_0.len() >= 2,
        trim_spec(points, PathKind::Open)->Some_0[0] == points[0],
        trim_spec(points, PathKind::Open)->Some_0.last() == points.last(),
    decreases points.len(),
{
    if points.len() >= 3 && !pass_overflows(points, PathKind::Open) {
        let cleaned = kept_prefix(points, PathKind::Open, points.len());
        lemma_kept_open_ends(points, points.len());
        if cleaned.len() < points.len() {
            law_trim_keeps_open_ends(cleaned);
        }
    }
}

/// Whether `sub` is `full` with some points left out, the rest in order.
pub open spec fn subsequence_of(sub: Seq<Point64>, full: Seq<Point64>) -> bool
    decreases full.len(),
{
    if full.len() == 0 {
        sub.len() == 0
    } else if sub.len() > 0 && sub.last() == full.last() && subsequence_of(sub.drop_last(), full.drop_last()) {
        true
    } else {
        subsequence_of(sub, full.drop_last())
    }
}

/// Leaving out points of a subsequence gives a subsequence.
proof fn lemma_subsequence_transitive(a: Seq<Point64>, b: Seq<Point64>, c: Seq<Point64>)
    requires
        subsequence_of(a, b),
        subsequence_of(b, c),
    ensures
        subsequence_of(a, c),
    decreases c.len(),
{
    if c.len() == 0 {
    } else if b.len() > 0 && b.last() == c.last() && subsequence_of(b.drop_last(), c.drop_last()) {
        if a.len() > 0 && a.last() == b.last() && subsequence_of(a.drop_last(), b.drop_last()) {
            lemma_subsequence_transitive(a.drop_last(), b.drop_last(), c.drop_last());
        } else {
            lemma_subsequence_transitive(a, b.drop_last(), c.drop_last());
        }
    } else {
        lemma_subsequence_transitive(a, b, c.drop_last());
    }
}

/// One pass keeps a subsequence of the first `n` points.
proof fn lemma_kept_subsequence(points: Seq<Point64>, kind: PathKind, n: nat)
    requires
        n <= points.len(),
    ensures
        subsequence_of(kept_prefix(points, kind, n), points.subrange(0, n as int)),
    decreases n,
{
    if n > 0 {
        lemma_kept_subsequence(points, kind, (n - 1) as nat);
        let full = points.subrange(0, n as int);
        assert(full.drop_last() =~= points.subrange(0, n - 1));
        assert(full.last() == points[n - 1]);
        let kept = kept_prefix(points, kind, n);
        if removable_spec(points, kind, n - 1) != Some(true) {
            assert(kept.drop_last() =~= kept_prefix(points, kind, (n - 1) as nat));
        }
    }
}

/// Every sequence is a subsequence of itself.
proof fn lemma_subsequence_reflexive(a: Seq<Point64>)
    ensures
        subsequence_of(a, a),
    decreases a.len(),
{
    if a.len() > 0 {
        lemma_subsequence_reflexive(a.drop_last());
    }
}

/// Trimming leaves out points and keeps the rest in order.
pub proof fn law_trim_subsequence(points: Seq<Point64>, kind: PathKind)
    requires
        trim_spec(points, kind) is Some,
    ensures
        subsequence_of(trim_spec(points, kind)->Some_0, points),
    decreases points.len(),
{
    if points.len() >= 3 && !pass_overflows(points, kind) {
        let cleaned = kept_prefix(points, kind, points.len());
        if cleaned.len() < points.len() {
            law_trim_subsequence(cleaned, kind);
            lemma_kept_subsequence(points, kind, points.len());
            assert(points.subrange(0, points.len() as int) =~= points);
            lemma_subsequence_transitive(trim_spec(points, kind)->Some_0, cleaned, points);
        } else {
            lemma_subsequence_reflexive(points);
        }
    } else {
        lemma_subsequence_reflexive(points);
    }
}

proof fn lemma_kept_prefix_len(points: Seq<Point64>, kind: PathKind, n: nat)
    ensures
        kept_prefix(points, kind, n).len() <= n,
    decreases n,
{
    if n > 0 {
        lemma_kept_prefix_len(points, kind, (n - 1) as nat);
    }
}

fn trim_pass(points: &Vec<Point64>, kind: PathKind) -> (result: Result<Vec<Point64>, Error>)
    requires
        points@.len() >= 3,
    ensures
        pass_overflows(points@, kind) <==> result is Err,
        result is Err ==> result == Err::<Vec<Point64>, Error>(Error::ArithmeticOverflow),
        result matches Ok(cleaned) ==> cleaned@ == kept_prefix(points@, kind, points@.len()),
{
    let len = points.len();
    let mut cleaned: Vec<Point64> = Vec::new();
    let mut index: usize = 0;
    while index < len
        invariant
            len == points@.len(),
            len >= 3,
            index <= len,
            cleaned@ == kept_prefix(points@, kind, index as nat),
            forall|i: int| 0 <= i < index ==> !(#[trigger] removable_spec(points@, kind, i) is None),
        decreases len - index,
    {
        let removable = match kind {
            PathKind::Closed => {
                let previous = if index == 0 {
                    len - 1
                } else {
                    index - 1
                };
                let next = if index + 1 == len {
                    0
                } else {
                    index + 1
                };
                collinear_between64(points[previous], points[index], points[next])
            },
            PathKind::Open => {
                if index > 0 && index + 1 < len {
                    collinear_between64(points[index - 1], points[index], points[index + 1])
                } else {
                    Ok(false)
                }
            },
        };
        let removable = match removable {
            Ok(value) => value,
            Err(error) => {
                assert(removable_spec(points@, kind, index as int) is None);
                return Err(error);
            },
        };
        if !removable {
            cleaned.push(points[index]);
        }
        index += 1;
    }
    Ok(cleaned)
}

/// Removes redundant collinear vertices from an integer path.
///
/// Consecutive duplicates and a repeated closing point are removed first. For
/// closed paths the first and last vertices are treated as adjacent; for open
/// paths the two endpoints are preserved. Passes repeat until none removes a
/// vertex.
pub fn trim_collinear64(path: &[Point64], kind: PathKind) -> (result: Result<Vec<Point64>, Error>)
    ensures
        !path_valid(path@, kind) ==> result == Err::<Vec<Point64>, Error>(
            invalid_path_error(path@, kind),
        ),
        path_valid(path@, kind) ==> match trim_spec(normalize_spec(path@, kind), kind) {
            Some(trimmed) => result is Ok && result->Ok_0@ == trimmed,
            None => result == Err::<Vec<Point64>, Error>(Error::ArithmeticOverflow),
        },
{
    match validate_path64(path, kind) {
        Err(error) => return Err(error),
        Ok(()) => {},
    }
    let mut points = normalize_path64(path, kind);
    loop
        invariant
            path_valid(path@, kind),
            trim_spec(normalize_spec(path@, kind), kind) == trim_spec(points@, kind),
        decreases points@.len(),
    {
        if points.len() < 3 {
            return Ok(points);
        }
        let cleaned = match trim_pass(&points, kind) {
            Ok(value) => value,
            Err(error) => return Err(error),
        };
        proof {
            lemma_kept_prefix_len(points@, kind, points@.len());
        }
        if cleaned.len() == points.len() {
            return Ok(points);
        }
        points = cleaned;
    }
}

} // verus!

verus! {

/// Simplifies integer paths by a union with the selected fill rule.
///
/// This resolves self-intersections and removes internal boundaries; use
/// [`trim_collinear64`] when only vertex cleanup is wanted. Errors are those
/// of the Boolean operation.
pub fn simplify_paths64(paths: &[Vec<Point64>], fill_rule: crate::request::FillRule) -> (result: Result<
    Vec<Vec<Point64>>,
    Error,
>)
    ensures
        crate::request::closed_operation_outcome(
            crate::request::views(paths@),
            Seq::empty(),
            crate::request::ClipType::Union,
            fill_rule,
            result,
        ),
{
    let clips: Vec<Vec<Point64>> = Vec::new();
    proof {
        assert(crate::request::views(clips@) =~= Seq::<Seq<Point64>>::empty());
    }
    crate::request::closed_operation(paths, clips.as_slice(), crate::request::ClipType::Union, fill_rule)
}

/// Clips integer paths to an axis-aligned rectangle: the intersection with
/// the rectangle's four corners as a closed clip path. Errors are those of
/// the Boolean operation.
pub fn clip_to_rect64(paths: &[Vec<Point64>], rectangle: Rect64, fill_rule: crate::request::FillRule) -> (result:
    Result<Vec<Vec<Point64>>, Error>)
    ensures
        crate::request::closed_operation_outcome(
            crate::request::views(paths@),
            seq![rectangle.corners()],
            crate::request::ClipType::Intersection,
            fill_rule,
            result,
        ),
{
    let clip = rectangle.path();
    let clips = vec![clip];
    proof {
        assert(crate::request::views(clips@) =~= seq![rectangle.corners()]);
    }
    crate::request::closed_operation(paths, clips.as_slice(), crate::request::ClipType::Intersection, fill_rule)
}

} // verus!

verus! {

/// Reversing a path twice gives the path back.
pub proof fn law_reverse_involution(path: Seq<Point64>)
    ensures
        path.reverse().reverse() == path,
{
    assert(path.reverse().reverse() =~= path);
}

/// Exchanging the last two points of an orientation test negates the cross
/// product, so counter-clockwise and clockwise swap and collinear stays.
pub proof fn law_orientation_swap(a: Point64, b: Point64, c: Point64)
    ensures
        cross_value(a, c, b) == -cross_value(a, b, c),
        orientation_spec(a, c, b) == match orientation_spec(a, b, c) {
            Orientation::Clockwise => Orientation::CounterClockwise,
            Orientation::Collinear => Orientation::Collinear,
            Orientation::CounterClockwise => Orientation::Clockwise,
        },
{
    let (bx, by, cx, cy) = (b.x - a.x, b.y - a.y, c.x - a.x, c.y - a.y);
    assert(cx * by - cy * bx == -(bx * cy - by * cx)) by (nonlinear_arith);
}

proof fn lemma_reverse_term(path: Seq<Point64>, k: int)
    requires
        path.len() >= 3,
        0 <= k < path.len() - 1,
    ensures
        area_term(path.reverse(), k) == -area_term(path, path.len() - 2 - k),
{
    let n = path.len() as int;
    let r = path.reverse();
    let a = path[n - 1 - k];
    let b = path[n - 2 - k];
    assert(r[k] == a);
    assert(r[k + 1] == b);
    assert(next_index(n as nat, k) == k + 1);
    assert(next_index(n as nat, n - 2 - k) == n - 1 - k);
    assert(a.x * b.y - a.y * b.x == -(b.x * a.y - b.y * a.x)) by (nonlinear_arith);
}

proof fn lemma_reverse_prefix(path: Seq<Point64>, k: nat)
    requires
        path.len() >= 3,
        k <= path.len() - 1,
    ensures
        area_prefix(path.reverse(), k) == -(area_prefix(path, (path.len() - 1) as nat) - area_prefix(
            path,
            (path.len() - 1 - k) as nat,
        )),
    decreases k,
{
    if k > 0 {
        lemma_reverse_prefix(path, (k - 1) as nat);
        lemma_reverse_term(path, k - 1);
        let m = (path.len() - 1 - k) as nat;
        assert(area_prefix(path, m + 1) == area_prefix(path, m) + area_term(path, m as int));
    }
}

/// Reversing a path negates its signed area: orientation flips between
/// counter-clockwise and clockwise.
pub proof fn law_reverse_negates_area(path: Seq<Point64>)
    ensures
        area2_spec(path.reverse()) == -area2_spec(path),
{
    let n = path.len();
    if n >= 3 {
        lemma_reverse_prefix(path, (n - 1) as nat);
        let r = path.reverse();
        let a = path[0];
        let b = path[n - 1];
        assert(r[n - 1] == a);
        assert(r[0] == b);
        assert(a.x * b.y - a.y * b.x == -(b.x * a.y - b.y * a.x)) by (nonlinear_arith);
        assert(area_term(r, n - 1) == -area_term(path, n - 1));
    }
}

/// `path` with every point moved by `(dx, dy)`.
pub open spec fn translated(path: Seq<Point64>, dx: int, dy: int) -> Seq<Point64> {
    Seq::new(path.len(), |i: int| Point64 { x: (path[i].x + dx) as i64, y: (path[i].y + dy) as i64 })
}

/// The cross product of the offset `(dx, dy)` with the step from point `i`
/// to the next point of the closed path.
spec fn offset_step(path: Seq<Point64>, dx: int, dy: int, i: int) -> int {
    let a = path[i];
    let b = path[next_index(path.len(), i)];
    dx * (b.y - a.y) - dy * (b.x - a.x)
}

spec fn offset_prefix(path: Seq<Point64>, dx: int, dy: int, k: nat) -> int
    decreases k,
{
    if k == 0 {
        0
    } else {
        offset_prefix(path, dx, dy, (k - 1) as nat) + offset_step(path, dx, dy, k - 1)
    }
}

proof fn lemma_offset_prefix(path: Seq<Point64>, dx: int, dy: int, k: nat)
    requires
        path.len() >= 1,
        k <= path.len() - 1,
    ensures
        offset_prefix(path, dx, dy, k) == dx * (path[k as int].y - path[0].y) - dy * (path[k as int].x - path[0].x),
    decreases k,
{
    if k > 0 {
        lemma_offset_prefix(path, dx, dy, (k - 1) as nat);
        let (p, q, o) = (path[k - 1], path[k as int], path[0]);
        assert(next_index(path.len(), k - 1) == k);
        assert(dx * (p.y - o.y) - dy * (p.x - o.x) + (dx * (q.y - p.y) - dy * (q.x - p.x)) == dx * (q.y - o.y) - dy * (
        q.x - o.x)) by (nonlinear_arith);
    } else {
        let o = path[0];
        assert(dx * (o.y - o.y) - dy * (o.x - o.x) == 0) by (nonlinear_arith);
    }
}

proof fn lemma_translated_prefix(path: Seq<Point64>, moved: Seq<Point64>, dx: int, dy: int, k: nat)
    requires
        path.len() >= 3,
        moved.len() == path.len(),
        forall|i: int| 0 <= i < path.len() ==> (#[trigger] moved[i]).x == path[i].x + dx && moved[i].y == path[i].y + dy,
        k <= path.len(),
    ensures
        area_prefix(moved, k) == area_prefix(path, k) + offset_prefix(path, dx, dy, k),
    decreases k,
{
    if k > 0 {
        lemma_translated_prefix(path, moved, dx, dy, (k - 1) as nat);
        let i = k - 1;
        let j = next_index(path.len(), i);
        let (a, b) = (path[i], path[j]);
        let (c, d) = (moved[i], moved[j]);
        assert(c.x == a.x + dx && c.y == a.y + dy && d.x == b.x + dx && d.y == b.y + dy);
        let (ax, ay, bx, by) = (a.x as int, a.y as int, b.x as int, b.y as int);
        lemma_shifted_cross(ax, ay, bx, by, dx, dy);
    }
}

/// The cross product of two points moved by the same offset.
proof fn lemma_shifted_cross(ax: int, ay: int, bx: int, by: int, dx: int, dy: int)
    ensures
        (ax + dx) * (by + dy) - (ay + dy) * (bx + dx) == (ax * by - ay * bx) + (dx * (by - ay) - dy * (bx - ax)),
{
    assert((ax + dx) * (by + dy) == ax * by + ax * dy + dx * by + dx * dy) by (nonlinear_arith);
    assert((ay + dy) * (bx + dx) == ay * bx + ay * dx + dy * bx + dy * dx) by (nonlinear_arith);
    assert(dx * (by - ay) == dx * by - dx * ay) by (nonlinear_arith);
    assert(dy * (bx - ax) == dy * bx - dy * ax) by (nonlinear_arith);
    assert(dx * dy == dy * dx && ax * dy == dy * ax && ay * dx == dx * ay) by (nonlinear_arith);
}

/// Translating a closed path leaves its signed area unchanged.
pub proof fn law_translation_keeps_area(path: Seq<Point64>, moved: Seq<Point64>, dx: int, dy: int)
    requires
        moved.len() == path.len(),
        forall|i: int| 0 <= i < path.len() ==> (#[trigger] moved[i]).x == path[i].x + dx && moved[i].y == path[i].y + dy,
    ensures
        area2_spec(moved) == area2_spec(path),
{
    let n = path.len();
    if n >= 3 {
        lemma_translated_prefix(path, moved, dx, dy, n);
        lemma_offset_prefix(path, dx, dy, (n - 1) as nat);
        let (p, o) = (path[n - 1], path[0]);
        assert(next_index(n, n - 1) == 0);
        assert(dx * (p.y - o.y) - dy * (p.x - o.x) + (dx * (o.y - p.y) - dy * (o.x - p.x)) == 0) by (nonlinear_arith);
    }
}

/// Translating by `(dx, dy)` and then by `(-dx, -dy)` gives the path back.
pub proof fn law_translation_round_trip(path: Seq<Point64>, moved: Seq<Point64>, back: Seq<Point64>, dx: int, dy: int)
    requires
        moved.len() == path.len(),
        forall|i: int| 0 <= i < path.len() ==> (#[trigger] moved[i]).x == path[i].x + dx && moved[i].y == path[i].y + dy,
        back.len() == moved.len(),
        forall|i: int| 0 <= i < moved.len() ==> (#[trigger] back[i]).x == moved[i].x - dx && back[i].y == moved[i].y - dy,
    ensures
        back == path,
{
    assert forall|i: int| 0 <= i < path.len() implies back[i] == path[i] by {
        assert(moved[i].x == path[i].x + dx);
    }
    assert(back =~= path);
}

/// The rectangle path runs counter-clockwise: twice its signed area is twice
/// its width times its height.
pub proof fn law_rectangle_is_counterclockwise(rect: Rect64)
    ensures
        area2_spec(rect.corners()) == 2 * (rect.max_x - rect.min_x) * (rect.max_y - rect.min_y),
{
    let c = rect.corners();
    reveal_with_fuel(area_prefix, 5);
    assert(next_index(4, 0) == 1);
    assert(next_index(4, 1) == 2);
    assert(next_index(4, 2) == 3);
    assert(next_index(4, 3) == 0);
    let (x0, y0, x1, y1) = (rect.min_x as int, rect.min_y as int, rect.max_x as int, rect.max_y as int);
    assert((x0 * y0 - y0 * x1) + (x1 * y1 - y0 * x1) + (x1 * y1 - y1 * x0) + (x0 * y0 - y1 * x0) == 2 * (x1 - x0) * (
    y1 - y0)) by (nonlinear_arith);
}

/// No two consecutive points of `path` are equal.
pub open spec fn no_adjacent_duplicates(path: Seq<Point64>) -> bool {
    forall|i: int| 0 <= i < path.len() - 1 ==> #[trigger] path[i] != path[i + 1]
}

pub proof fn lemma_dedup_shape(path: Seq<Point64>)
    ensures
        no_adjacent_duplicates(dedup_consecutive(path)),
        path.len() > 0 ==> dedup_consecutive(path).len() > 0 && dedup_consecutive(path).last() == path.last(),
        path.len() == 0 ==> dedup_consecutive(path).len() == 0,
    decreases path.len(),
{
    if path.len() > 0 {
        lemma_dedup_shape(path.drop_last());
        let prefix = dedup_consecutive(path.drop_last());
        let result = dedup_consecutive(path);
        if !(prefix.len() > 0 && prefix.last() == path.last()) {
            assert forall|i: int| 0 <= i < result.len() - 1 implies #[trigger] result[i] != result[i + 1] by {
                if i + 1 < prefix.len() {
                    assert(result[i] == prefix[i] && result[i + 1] == prefix[i + 1]);
                }
            }
        }
    }
}

/// Collapsing runs of a path without adjacent duplicates changes nothing.
pub proof fn lemma_dedup_identity(path: Seq<Point64>)
    requires
        no_adjacent_duplicates(path),
    ensures
        dedup_consecutive(path) == path,
    decreases path.len(),
{
    if path.len() > 0 {
        let prefix = path.drop_last();
        assert(no_adjacent_duplicates(prefix)) by {
            assert forall|i: int| 0 <= i < prefix.len() - 1 implies #[trigger] prefix[i] != prefix[i + 1] by {
                assert(path[i] != path[i + 1]);
            }
        }
        lemma_dedup_identity(prefix);
        if prefix.len() > 0 {
            assert(path[path.len() - 2] != path[path.len() - 1]);
        }
        assert(prefix.push(path.last()) =~= path);
    }
}

/// Normalizing a normalized path changes nothing.
pub proof fn law_normalize_idempotent(path: Seq<Point64>, kind: PathKind)
    ensures
        normalize_spec(normalize_spec(path, kind), kind) == normalize_spec(path, kind),
        no_adjacent_duplicates(normalize_spec(path, kind)),
{
    let deduped = dedup_consecutive(path);
    lemma_dedup_shape(path);
    let normalized = normalize_spec(path, kind);
    if kind == PathKind::Closed && deduped.len() > 1 && deduped[0] == deduped.last() {
        assert(no_adjacent_duplicates(normalized)) by {
            assert forall|i: int| 0 <= i < normalized.len() - 1 implies #[trigger] normalized[i] != normalized[i + 1] by {
                assert(normalized[i] == deduped[i] && normalized[i + 1] == deduped[i + 1]);
            }
        }
        lemma_dedup_identity(normalized);
        if normalized.len() > 1 {
            let last = deduped.len() - 1;
            assert(deduped[last - 1] != deduped[last]);
            assert(normalized.last() == deduped[last - 1]);
        }
    } else {
        lemma_dedup_identity(normalized);
    }
}

proof fn lemma_cross_swap(a: Point64, b: Point64, point: Point64)
    ensures
        cross_value(b, a, point) == -cross_value(a, b, point),
{
    let (ax, ay, bx, by, px, py) = (a.x as int, a.y as int, b.x as int, b.y as int, point.x as int, point.y as int);
    assert((ax - bx) * (py - by) - (ay - by) * (px - bx) == -((bx - ax) * (py - ay) - (by - ay) * (px - ax)))
        by (nonlinear_arith);
}

proof fn lemma_edge_symmetric(point: Point64, a: Point64, b: Point64)
    ensures
        on_segment_spec(point, a, b) == on_segment_spec(point, b, a),
        crosses_right(point, a, b) == crosses_right(point, b, a),
{
    lemma_cross_swap(a, b, point);
}

/// The edge of the reversed path at `i` is edge `reversed_edge(len, i)` of
/// the path, walked the other way.
spec fn reversed_edge(len: nat, i: int) -> int {
    if i + 1 == len {
        len - 1
    } else {
        len - 2 - i
    }
}

proof fn lemma_reversed_edge_points(path: Seq<Point64>, i: int)
    requires
        0 <= i < path.len(),
    ensures
        path.reverse()[i] == path[next_index(path.len(), reversed_edge(path.len(), i))],
        path.reverse()[next_index(path.len(), i)] == path[reversed_edge(path.len(), i)],
        0 <= reversed_edge(path.len(), i) < path.len(),
{
}

proof fn lemma_reversed_parity(point: Point64, path: Seq<Point64>, k: nat)
    requires
        1 <= path.len(),
        k <= path.len() - 1,
    ensures
        crossing_parity(point, path.reverse(), k) == (crossing_parity(point, path, (path.len() - 1) as nat)
            != crossing_parity(point, path, (path.len() - 1 - k) as nat)),
    decreases k,
{
    if k > 0 {
        lemma_reversed_parity(point, path, (k - 1) as nat);
        let i = k - 1;
        lemma_reversed_edge_points(path, i);
        let j = reversed_edge(path.len(), i);
        lemma_edge_symmetric(point, path[j], path[next_index(path.len(), j)]);
    }
}

/// Classifying a point against a path and against the reversed path gives the
/// same answer: the even-odd rule does not depend on orientation.
pub proof fn law_location_ignores_orientation(point: Point64, path: Seq<Point64>)
    ensures
        location_spec(point, path.reverse()) == location_spec(point, path),
{
    let n = path.len();
    let reversed = path.reverse();
    if n > 0 {
        assert(on_boundary_prefix(point, reversed, n as int) == on_boundary_prefix(point, path, n as int)) by {
            if on_boundary_prefix(point, reversed, n as int) {
                let i = choose|i: int| 0 <= i < n && #[trigger] on_segment_spec(point, reversed[i], reversed[next_index(n, i)]);
                lemma_reversed_edge_points(path, i);
                let j = reversed_edge(n, i);
                lemma_edge_symmetric(point, path[j], path[next_index(n, j)]);
                assert(on_segment_spec(point, path[j], path[next_index(n, j)]));
            }
            if on_boundary_prefix(point, path, n as int) {
                let j = choose|j: int| 0 <= j < n && #[trigger] on_segment_spec(point, path[j], path[next_index(n, j)]);
                let i = reversed_edge(n, j);
                assert(reversed_edge(n, i) == j);
                lemma_reversed_edge_points(path, i);
                lemma_edge_symmetric(point, path[j], path[next_index(n, j)]);
                assert(on_segment_spec(point, reversed[i], reversed[next_index(n, i)]));
            }
        }
        lemma_reversed_parity(point, path, (n - 1) as nat);
        lemma_reversed_edge_points(path, n - 1);
        lemma_edge_symmetric(point, path[n - 1], path[next_index(n, n - 1)]);
        assert(crossing_parity(point, reversed, n) == crossing_parity(point, path, n));
    }
}

} // verus!
