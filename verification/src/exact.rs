//! Exact points, segment predicates and winding numbers over rationals.

use vstd::prelude::*;

use crate::geometry::{Point64, sign};
use crate::rational::{Q, Rational, q_less, q_mul, q_same, q_sub};

verus! {

/// A point with exact rational coordinates.
pub struct ExactPoint {
    /// Horizontal coordinate.
    pub x: Rational,
    /// Vertical coordinate.
    pub y: Rational,
}

/// A point's coordinates as rational pairs.
pub type QPoint = (Q, Q);

/// The coordinate-wise difference of two points.
pub open spec fn qp_sub(a: QPoint, b: QPoint) -> QPoint {
    (q_sub(a.0, b.0), q_sub(a.1, b.1))
}

/// The cross product of two vectors, as a rational pair.
pub open spec fn qp_cross(u: QPoint, v: QPoint) -> Q {
    q_sub(q_mul(u.0, v.1), q_mul(u.1, v.0))
}

/// The sign of a rational pair with a positive denominator.
pub open spec fn q_sign(a: Q) -> int {
    sign(a.0)
}

/// Whether two points coincide.
pub open spec fn qp_same(a: QPoint, b: QPoint) -> bool {
    q_same(a.0, b.0) && q_same(a.1, b.1)
}

/// Both coordinates of a rational point have positive denominators.
pub open spec fn qp_positive(p: QPoint) -> bool {
    p.0.1 > 0 && p.1.1 > 0
}

/// Equality of rational pairs is transitive through a pair with a positive
/// denominator.
pub proof fn lemma_q_same_transitive(a: Q, b: Q, c: Q)
    requires
        b.1 > 0,
        q_same(a, b),
        q_same(b, c),
    ensures
        q_same(a, c),
{
    assert(b.1 * (a.0 * c.1 - c.0 * a.1) == 0) by (nonlinear_arith)
        requires
            a.0 * b.1 == b.0 * a.1,
            b.0 * c.1 == c.0 * b.1,
    ;
    assert(a.0 * c.1 - c.0 * a.1 == 0) by (nonlinear_arith)
        requires
            b.1 * (a.0 * c.1 - c.0 * a.1) == 0,
            b.1 > 0,
    ;
}

/// Coincidence of rational points is transitive through a point with
/// positive denominators.
pub proof fn lemma_qp_same_transitive(a: QPoint, b: QPoint, c: QPoint)
    requires
        qp_positive(b),
        qp_same(a, b),
        qp_same(b, c),
    ensures
        qp_same(a, c),
{
    lemma_q_same_transitive(a.0, b.0, c.0);
    lemma_q_same_transitive(a.1, b.1, c.1);
}

/// Whether `value` lies between `a` and `b` inclusive, in either order.
pub open spec fn q_between(value: Q, a: Q, b: Q) -> bool {
    if !q_less(b, a) {
        !q_less(value, a) && !q_less(b, value)
    } else {
        !q_less(value, b) && !q_less(a, value)
    }
}

/// Whether `point` lies on the closed segment from `start` to `end`.
pub open spec fn qp_on_segment(point: QPoint, start: QPoint, end: QPoint) -> bool {
    &&& qp_cross(qp_sub(point, start), qp_sub(end, start)).0 == 0
    &&& q_between(point.0, start.0, end.0)
    &&& q_between(point.1, start.1, end.1)
}

impl ExactPoint {
    /// The coordinates as rational pairs.
    pub open spec fn qp(self) -> QPoint {
        (self.x.q(), self.y.q())
    }

    /// Both coordinates have positive denominators.
    pub open spec fn wf(self) -> bool {
        self.x.wf() && self.y.wf()
    }

    /// The exact point of an integer point.
    pub fn from_point64(point: Point64) -> (result: Self)
        ensures
            result.wf(),
            result.qp() == ((point.x as int, 1int), (point.y as int, 1int)),
    {
        ExactPoint { x: Rational::from_i64(point.x), y: Rational::from_i64(point.y) }
    }

    /// An equal copy.
    pub fn copy(&self) -> (result: Self)
        ensures
            result.qp() == self.qp(),
    {
        ExactPoint { x: self.x.copy(), y: self.y.copy() }
    }

    /// The vector from `other` to `self`.
    pub fn sub(&self, other: &Self) -> (result: Self)
        requires
            self.wf(),
            other.wf(),
        ensures
            result.wf(),
            result.qp() == qp_sub(self.qp(), other.qp()),
    {
        ExactPoint { x: self.x.sub(&other.x), y: self.y.sub(&other.y) }
    }

    /// Whether both points coincide.
    pub fn equals(&self, other: &Self) -> (result: bool)
        requires
            self.wf(),
            other.wf(),
        ensures
            result == qp_same(self.qp(), other.qp()),
    {
        self.x.equals(&other.x) && self.y.equals(&other.y)
    }

    /// Lexicographic comparison by `x`, then `y`: -1, 0 or 1.
    pub fn compare(&self, other: &Self) -> (result: i8)
        requires
            self.wf(),
            other.wf(),
        ensures
            result == if self.x.compare_spec(other.x) != 0 {
                self.x.compare_spec(other.x)
            } else {
                self.y.compare_spec(other.y)
            },
    {
        let first = self.x.compare(&other.x);
        if first != 0 {
            first
        } else {
            self.y.compare(&other.y)
        }
    }
}

/// Every point of the sequence is well-formed.
pub open spec fn points_wf(points: Seq<ExactPoint>) -> bool {
    forall|i: int| 0 <= i < points.len() ==> (#[trigger] points[i]).wf()
}

/// Every path of the sequence is made of well-formed points.
pub open spec fn paths_wf(paths: Seq<Vec<ExactPoint>>) -> bool {
    forall|i: int| 0 <= i < paths.len() ==> points_wf(#[trigger] paths[i]@)
}

/// The cross product of two vectors.
pub fn cross_vectors(first: &ExactPoint, second: &ExactPoint) -> (result: Rational)
    requires
        first.wf(),
        second.wf(),
    ensures
        result.wf(),
        result.q() == qp_cross(first.qp(), second.qp()),
{
    first.x.mul(&second.y).sub(&first.y.mul(&second.x))
}

/// Whether `point` lies on the closed segment from `start` to `end`.
pub fn point_on_segment_exact(point: &ExactPoint, start: &ExactPoint, end: &ExactPoint) -> (result: bool)
    requires
        point.wf(),
        start.wf(),
        end.wf(),
    ensures
        result == qp_on_segment(point.qp(), start.qp(), end.qp()),
{
    if !cross_vectors(&point.sub(start), &end.sub(start)).is_zero() {
        return false;
    }
    let x_in = if start.x.le(&end.x) {
        start.x.le(&point.x) && point.x.le(&end.x)
    } else {
        end.x.le(&point.x) && point.x.le(&start.x)
    };
    let y_in = if start.y.le(&end.y) {
        start.y.le(&point.y) && point.y.le(&end.y)
    } else {
        end.y.le(&point.y) && point.y.le(&start.y)
    };
    x_in && y_in
}

/// The index of the vertex that follows vertex `i` in a closed path.
pub open spec fn wrap_next(len: nat, i: int) -> int {
    if i + 1 == len {
        0
    } else {
        i + 1
    }
}

/// The winding contribution of edge `start -> end` at `point` (rightward
/// ray, half-open in `y`).
pub open spec fn edge_winding(point: QPoint, start: QPoint, end: QPoint) -> int {
    if q_less(point.1, start.1) != q_less(point.1, end.1) {
        let cross = q_sign(qp_cross(qp_sub(end, start), qp_sub(point, start)));
        if q_less(start.1, end.1) {
            if cross > 0 {
                1
            } else {
                0
            }
        } else if cross < 0 {
            -1
        } else {
            0
        }
    } else {
        0
    }
}

/// The winding of the first `n` edges of the closed path `path` at `point`,
/// or `None` when `point` lies on one of them.
pub open spec fn path_winding_prefix(point: QPoint, path: Seq<ExactPoint>, n: nat) -> Option<int>
    decreases n,
{
    if n == 0 {
        Some(0)
    } else {
        match path_winding_prefix(point, path, (n - 1) as nat) {
            None => None,
            Some(winding) => {
                let start = path[n - 1].qp();
                let end = path[wrap_next(path.len(), n - 1)].qp();
                if qp_on_segment(point, start, end) {
                    None
                } else {
                    Some(winding + edge_winding(point, start, end))
                }
            },
        }
    }
}

/// The winding of all paths at `point`, or `None` when `point` lies on one
/// of their edges.
pub open spec fn paths_winding_prefix(point: QPoint, paths: Seq<Vec<ExactPoint>>, n: nat) -> Option<int>
    decreases n,
{
    if n == 0 {
        Some(0)
    } else {
        match paths_winding_prefix(point, paths, (n - 1) as nat) {
            None => None,
            Some(before) => match path_winding_prefix(point, paths[n - 1]@, paths[n - 1]@.len()) {
                None => None,
                Some(winding) => Some(before + winding),
            },
        }
    }
}

/// The winding number of `paths` at `point`, or `None` on a boundary.
pub open spec fn paths_winding(point: QPoint, paths: Seq<Vec<ExactPoint>>) -> Option<int> {
    paths_winding_prefix(point, paths, paths.len())
}

/// The total number of edges in `paths`.
pub open spec fn edge_count(paths: Seq<Vec<ExactPoint>>, n: nat) -> int
    decreases n,
{
    if n == 0 {
        0
    } else {
        edge_count(paths, (n - 1) as nat) + paths[n - 1]@.len()
    }
}

proof fn lemma_path_winding_bound(point: QPoint, path: Seq<ExactPoint>, n: nat)
    ensures
        path_winding_prefix(point, path, n) matches Some(w) ==> -n <= w <= n,
    decreases n,
{
    if n > 0 {
        lemma_path_winding_bound(point, path, (n - 1) as nat);
    }
}

fn path_winding(point: &ExactPoint, path: &Vec<ExactPoint>) -> (result: Option<i128>)
    requires
        point.wf(),
        points_wf(path@),
    ensures
        match path_winding_prefix(point.qp(), path@, path@.len()) {
            None => result is None,
            Some(w) => result == Some(w as i128),
        },
{
    let len = path.len();
    let mut winding: i128 = 0;
    let mut index: usize = 0;
    while index < len
        invariant
            len == path@.len(),
            point.wf(),
            points_wf(path@),
            index <= len,
            path_winding_prefix(point.qp(), path@, index as nat) == Some(winding as int),
        decreases len - index,
    {
        let start = &path[index];
        let next = if index + 1 == len {
            0
        } else {
            index + 1
        };
        let end = &path[next];
        proof {
            assert(path@[index as int].wf());
            assert(path@[next as int].wf());
            lemma_path_winding_bound(point.qp(), path@, index as nat);
        }
        if point_on_segment_exact(point, start, end) {
            proof {
                lemma_path_none_persists(point.qp(), path@, (index + 1) as nat, len as nat);
            }
            return None;
        }
        if point.y.lt(&start.y) != point.y.lt(&end.y) {
            let cross = cross_vectors(&end.sub(start), &point.sub(start));
            if start.y.lt(&end.y) {
                if cross.is_positive() {
                    winding = winding + 1;
                }
            } else if cross.is_negative() {
                winding = winding - 1;
            }
        }
        index += 1;
    }
    Some(winding)
}

proof fn lemma_paths_winding_bound(point: QPoint, paths: Seq<Vec<ExactPoint>>, n: nat)
    requires
        n <= paths.len(),
    ensures
        paths_winding_prefix(point, paths, n) matches Some(w) ==> -edge_count(paths, n) <= w
            <= edge_count(paths, n),
        edge_count(paths, n) >= 0,
    decreases n,
{
    if n > 0 {
        lemma_paths_winding_bound(point, paths, (n - 1) as nat);
        lemma_path_winding_bound(point, paths[n - 1]@, paths[n - 1]@.len());
    }
}

/// The winding number of `paths` at `point` (sum over all edges of the
/// rightward-ray crossings, counter-clockwise positive), or `None` when
/// `point` lies on an edge.
pub fn paths_winding_at(point: &ExactPoint, paths: &[Vec<ExactPoint>]) -> (result: Option<i128>)
    requires
        point.wf(),
        paths_wf(paths@),
        edge_count(paths@, paths@.len() as nat) <= i128::MAX,
    ensures
        match paths_winding(point.qp(), paths@) {
            None => result is None,
            Some(w) => result == Some(w as i128),
        },
        result matches Some(value) ==> paths_winding(point.qp(), paths@) == Some(value as int),
{
    let mut winding: i128 = 0;
    let mut index: usize = 0;
    while index < paths.len()
        invariant
            point.wf(),
            paths_wf(paths@),
            edge_count(paths@, paths@.len() as nat) <= i128::MAX,
            index <= paths@.len(),
            paths_winding_prefix(point.qp(), paths@, index as nat) == Some(winding as int),
        decreases paths@.len() - index,
    {
        proof {
            assert(points_wf(paths@[index as int]@));
            lemma_paths_winding_bound(point.qp(), paths@, (index + 1) as nat);
            lemma_edge_count_monotone(paths@, (index + 1) as nat, paths@.len() as nat);
            lemma_path_winding_bound(point.qp(), paths@[index as int]@, paths@[index as int]@.len());
            lemma_paths_winding_bound(point.qp(), paths@, index as nat);
        }
        let ghost before = paths_winding_prefix(point.qp(), paths@, (index + 1) as nat);
        match path_winding(point, &paths[index]) {
            None => {
                proof {
                    assert(before is None);
                    lemma_paths_none_persists(
                        point.qp(),
                        paths@,
                        (index + 1) as nat,
                        paths@.len() as nat,
                    );
                }
                return None;
            },
            Some(value) => {
                proof {
                    assert(before == Some(winding + value));
                }
                winding = winding + value;
            },
        }
        index += 1;
    }
    Some(winding)
}

proof fn lemma_path_none_persists(point: QPoint, path: Seq<ExactPoint>, m: nat, n: nat)
    requires
        m <= n,
        path_winding_prefix(point, path, m) is None,
    ensures
        path_winding_prefix(point, path, n) is None,
    decreases n - m,
{
    if m < n {
        lemma_path_none_persists(point, path, m, (n - 1) as nat);
    }
}

proof fn lemma_paths_none_persists(point: QPoint, paths: Seq<Vec<ExactPoint>>, m: nat, n: nat)
    requires
        m <= n,
        paths_winding_prefix(point, paths, m) is None,
    ensures
        paths_winding_prefix(point, paths, n) is None,
    decreases n - m,
{
    if m < n {
        lemma_paths_none_persists(point, paths, m, (n - 1) as nat);
    }
}

proof fn lemma_edge_count_monotone(paths: Seq<Vec<ExactPoint>>, m: nat, n: nat)
    requires
        m <= n <= paths.len(),
    ensures
        edge_count(paths, m) <= edge_count(paths, n),
    decreases n - m,
{
    if m < n {
        lemma_edge_count_monotone(paths, m, (n - 1) as nat);
    }
}

} // verus!
