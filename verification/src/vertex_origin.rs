//! Where the points of a Boolean result come from: every vertex of a closed
//! result ring lies on an edge of a subject or a clip ring, and every open
//! result line lies along one open subject line.

use vstd::prelude::*;

use crate::arrangement::{Edge, edge_of_path, is_rotation, q_unit, qp_point_at};
use crate::exact::{ExactPoint, QPoint, lemma_qp_same_transitive, paths_wf, points_wf, qp_positive, qp_same};
use crate::faces::piece_point;
use crate::geometry::{Point64, normalize_spec};
use crate::overlay::{
    AtomicEdge, DirectedEdge, ccw_rings, ccw_rings_in_order, ccw_rings_permuted, ccw_rotation_of, counter_clockwise,
    parameter_lists_wf, shortcut_outcome,
};
use crate::rational::{Q, Rational};
use crate::request::ClipType;
use crate::rings::{edge_of_paths, exact_of, ring_edge_listed, ring_from_edges};
use crate::PathKind;

verus! {

/// Whether `point` is, up to equal coordinates, the point at parameter `t`
/// in `[0, 1]` along the edge from point `m` of the closed path to the next
/// point.
pub open spec fn at_path_parameter(path: Seq<ExactPoint>, m: int, t: Q, point: QPoint) -> bool {
    &&& 0 <= m < path.len()
    &&& 0 <= t.0 <= t.1
    &&& t.1 > 0
    &&& qp_same(point, qp_point_at(path[m].qp(), path[if m + 1 == path.len() { 0 } else { m + 1 }].qp(), t))
}

/// Whether `point` lies on an edge of one of the closed paths.
pub open spec fn on_paths(paths: Seq<Vec<ExactPoint>>, point: QPoint) -> bool {
    exists|p: int, m: int, t: Q| 0 <= p < paths.len() && #[trigger] at_path_parameter(paths[p]@, m, t, point)
}

/// Whether every point of every ring lies on an edge of a subject or a clip
/// path.
pub open spec fn rings_on_inputs(
    rings: Seq<Vec<ExactPoint>>,
    subjects: Seq<Vec<ExactPoint>>,
    clips: Seq<Vec<ExactPoint>>,
) -> bool {
    forall|i: int, j: int|
        0 <= i < rings.len() && 0 <= j < rings[i]@.len() ==> on_paths(subjects, #[trigger] rings[i]@[j].qp())
            || on_paths(clips, rings[i]@[j].qp())
}

/// Every parameter of every list lies in `[0, 1]`.
pub open spec fn params_unit(lists: Seq<Vec<Rational>>) -> bool {
    forall|e: int, j: int| 0 <= e < lists.len() && 0 <= j < lists[e]@.len() ==> q_unit((#[trigger] lists[e]@[j]).q())
}

/// Whether `point` is an endpoint of one of the atomic edges.
pub open spec fn atomic_endpoint(atomic: Seq<AtomicEdge>, point: QPoint) -> bool {
    exists|i: int| 0 <= i < atomic.len() && ((#[trigger] atomic[i]).start.qp() == point || atomic[i].end.qp() == point)
}

/// A point of a closed path lies at parameter `0` of the edge it starts.
pub proof fn lemma_vertex_on_path(path: Seq<ExactPoint>, m: int)
    requires
        points_wf(path),
        0 <= m < path.len(),
    ensures
        at_path_parameter(path, m, (0int, 1int), path[m].qp()),
{
    let n = if m + 1 == path.len() { 0 } else { m + 1 };
    assert(path[m].wf() && path[n].wf());
    let s = path[m].qp();
    lemma_start_parameter(s.0, path[n].qp().0);
    lemma_start_parameter(s.1, path[n].qp().1);
}

/// The coordinate at parameter `0` equals the starting coordinate.
proof fn lemma_start_parameter(a: Q, b: Q)
    requires
        a.1 > 0,
        b.1 > 0,
    ensures
        ({
            let v = crate::rational::q_sub(b, a);
            let c = crate::rational::q_add(a, crate::rational::q_mul(v, (0int, 1int)));
            crate::rational::q_same(a, c)
        }),
{
    let v = crate::rational::q_sub(b, a);
    assert(a.0 * (a.1 * (v.1 * 1)) == (a.0 * (v.1 * 1) + (v.0 * 0) * a.1) * a.1) by (nonlinear_arith);
}

/// A point that coincides with a piece endpoint of a source edge taken from
/// the paths, at a parameter in `[0, 1]`, lies on the paths.
pub proof fn lemma_piece_on_inputs(
    point: QPoint,
    piece: QPoint,
    subjects: Seq<Vec<ExactPoint>>,
    clips: Seq<Vec<ExactPoint>>,
    edges: Seq<Edge>,
    parameters: Seq<Vec<Rational>>,
)
    requires
        qp_same(point, piece),
        piece_point(edges, parameters, piece),
        parameters.len() == edges.len(),
        parameter_lists_wf(parameters),
        params_unit(parameters),
        forall|e: int| 0 <= e < edges.len() ==> #[trigger] edge_of_paths(subjects, edges[e]) || edge_of_paths(clips, edges[e]),
    ensures
        on_paths(subjects, point) || on_paths(clips, point),
{
    let (e, j) = choose|e: int, j: int|
        0 <= e < edges.len() && 0 <= j < parameters[e]@.len() && piece == #[trigger] qp_point_at(
            edges[e].start.qp(),
            edges[e].end.qp(),
            parameters[e]@[j].q(),
        );
    let t = parameters[e]@[j].q();
    assert(q_unit(t));
    assert(parameters[e]@[j].wf());
    let edge = edges[e];
    if edge_of_paths(subjects, edge) {
        let (p, m) = choose|p: int, m: int| 0 <= p < subjects.len() && 0 <= m < subjects[p]@.len() && #[trigger] edge_of_path(subjects[p]@, m, edge);
        assert(at_path_parameter(subjects[p]@, m, t, point));
    } else {
        assert(edge_of_paths(clips, edge));
        let (p, m) = choose|p: int, m: int| 0 <= p < clips.len() && 0 <= m < clips[p]@.len() && #[trigger] edge_of_path(clips[p]@, m, edge);
        assert(at_path_parameter(clips[p]@, m, t, point));
    }
}

/// Every point of a ring that is a path turned counter-clockwise and
/// rotated is a point of the path.
pub proof fn lemma_ccw_ring_point(ring: Seq<ExactPoint>, path: Seq<ExactPoint>, j: int)
    requires
        ccw_rotation_of(ring, path),
        0 <= j < ring.len(),
    ensures
        exists|m: int| 0 <= m < path.len() && #[trigger] path[m].qp() == ring[j].qp(),
{
    let n = path.len() as int;
    let start = choose|start: int| #[trigger] is_rotation(ring, counter_clockwise(path), start);
    let k = (start + j) % n;
    vstd::arithmetic::div_mod::lemma_mod_bound(start + j, n);
    if counter_clockwise(path) == path.reverse() {
        assert(ring[j].qp() == path[n - 1 - k].qp());
    } else {
        assert(ring[j].qp() == path[k].qp());
    }
}

/// Every point of the rings, each a path of `paths` turned
/// counter-clockwise and rotated, lies on the paths.
pub proof fn lemma_ccw_point_on_paths(ring: Seq<ExactPoint>, paths: Seq<Vec<ExactPoint>>, p: int, j: int)
    requires
        0 <= p < paths.len(),
        points_wf(paths[p]@),
        ccw_rotation_of(ring, paths[p]@),
        0 <= j < ring.len(),
    ensures
        on_paths(paths, ring[j].qp()),
{
    lemma_ccw_ring_point(ring, paths[p]@, j);
    let m = choose|m: int| 0 <= m < paths[p]@.len() && #[trigger] paths[p]@[m].qp() == ring[j].qp();
    lemma_vertex_on_path(paths[p]@, m);
    assert(at_path_parameter(paths[p]@, m, (0int, 1int), ring[j].qp()));
}

/// Rings traced from directed edges that start at atomic endpoints, cut
/// at parameters in `[0, 1]` from edges of the paths, lie on the paths.
pub proof fn lemma_traced_rings_on_inputs(
    rings: Seq<Vec<ExactPoint>>,
    directed: Seq<DirectedEdge>,
    atomic: Seq<AtomicEdge>,
    edges: Seq<Edge>,
    parameters: Seq<Vec<Rational>>,
    subjects: Seq<Vec<ExactPoint>>,
    clips: Seq<Vec<ExactPoint>>,
)
    requires
        forall|i: int| 0 <= i < rings.len() ==> ring_from_edges(#[trigger] rings[i]@, directed),
        forall|k: int| 0 <= k < directed.len() ==> atomic_endpoint(atomic, (#[trigger] directed[k]).start.qp()),
        forall|a: int|
            0 <= a < atomic.len() ==> piece_point(edges, parameters, (#[trigger] atomic[a]).start.qp())
                && piece_point(edges, parameters, atomic[a].end.qp()),
        parameters.len() == edges.len(),
        parameter_lists_wf(parameters),
        params_unit(parameters),
        forall|e: int| 0 <= e < edges.len() ==> #[trigger] edge_of_paths(subjects, edges[e]) || edge_of_paths(clips, edges[e]),
    ensures
        rings_on_inputs(rings, subjects, clips),
{
    assert forall|i: int, j: int| 0 <= i < rings.len() && 0 <= j < rings[i]@.len() implies on_paths(
        subjects,
        #[trigger] rings[i]@[j].qp(),
    ) || on_paths(clips, rings[i]@[j].qp()) by {
        let ring = rings[i]@;
        assert(ring_from_edges(ring, directed));
        assert(ring_edge_listed(ring, directed, j));
        let k = choose|k: int|
            0 <= k < directed.len() && qp_same(ring[j].qp(), (#[trigger] directed[k]).start.qp()) && qp_same(
                ring[(j + 1) % (ring.len() as int)].qp(),
                directed[k].end.qp(),
            );
        let piece = directed[k].start.qp();
        assert(atomic_endpoint(atomic, piece));
        let a = choose|a: int| 0 <= a < atomic.len() && ((#[trigger] atomic[a]).start.qp() == piece || atomic[a].end.qp() == piece);
        assert(piece_point(edges, parameters, piece));
        lemma_piece_on_inputs(ring[j].qp(), piece, subjects, clips, edges, parameters);
    }
}

/// The rings of the cheap cases lie on the input paths.
pub proof fn lemma_shortcut_on_inputs(
    subjects: Seq<Vec<ExactPoint>>,
    clips: Seq<Vec<ExactPoint>>,
    clip_type: ClipType,
    result: Seq<Vec<ExactPoint>>,
)
    requires
        paths_wf(subjects),
        paths_wf(clips),
        shortcut_outcome(subjects, clips, clip_type, result),
    ensures
        rings_on_inputs(result, subjects, clips),
{
    assert forall|i: int, j: int| 0 <= i < result.len() && 0 <= j < result[i]@.len() implies on_paths(
        subjects,
        #[trigger] result[i]@[j].qp(),
    ) || on_paths(clips, result[i]@[j].qp()) by {
        let ring = result[i]@;
        if clips.len() == 0 {
            assert(ccw_rings(result, subjects));
            assert(ccw_rotation_of(ring, subjects[i]@));
            lemma_ccw_point_on_paths(ring, subjects, i, j);
        } else if subjects.len() == 0 {
            assert(ccw_rings(result, clips));
            assert(ccw_rotation_of(ring, clips[i]@));
            lemma_ccw_point_on_paths(ring, clips, i, j);
        } else if clip_type == ClipType::Difference {
            assert(ccw_rings_permuted(result, subjects));
            let perm = choose|perm: Seq<usize>| #[trigger] ccw_rings_in_order(result, subjects, perm);
            assert(ccw_rotation_of(ring, subjects[perm[i] as int]@));
            lemma_ccw_point_on_paths(ring, subjects, perm[i] as int, j);
        } else {
            let all = subjects + clips;
            assert(ccw_rings_permuted(result, all));
            let perm = choose|perm: Seq<usize>| #[trigger] ccw_rings_in_order(result, all, perm);
            let p = perm[i] as int;
            assert(ccw_rotation_of(ring, all[p]@));
            if p < subjects.len() {
                assert(all[p] == subjects[p]);
                lemma_ccw_point_on_paths(ring, subjects, p, j);
            } else {
                assert(all[p] == clips[p - subjects.len()]);
                lemma_ccw_point_on_paths(ring, clips, p - subjects.len(), j);
            }
        }
    }
}

/// Each exact path holds the points of the integer path at the same index.
pub open spec fn exact_rings_of(rings: Seq<Seq<Point64>>, exact: Seq<Vec<ExactPoint>>) -> bool {
    exact.len() == rings.len() && forall|i: int| 0 <= i < rings.len() ==> exact_of(rings[i], #[trigger] exact[i]@)
}

/// A point of the cheap-case outcome over integer inputs is an integer
/// point.
pub proof fn lemma_shortcut_integer_points(
    subject_rings: Seq<Seq<Point64>>,
    clip_rings: Seq<Seq<Point64>>,
    subjects: Seq<Vec<ExactPoint>>,
    clips: Seq<Vec<ExactPoint>>,
    clip_type: ClipType,
    result: Seq<Vec<ExactPoint>>,
    i: int,
    j: int,
)
    requires
        exact_rings_of(subject_rings, subjects),
        exact_rings_of(clip_rings, clips),
        shortcut_outcome(subjects, clips, clip_type, result),
        0 <= i < result.len(),
        0 <= j < result[i]@.len(),
    ensures
        exists|point: Point64| result[i]@[j].qp() == #[trigger] point64_q(point),
{
    let ring = result[i]@;
    let (paths, p, rings) = if clips.len() == 0 {
        assert(ccw_rings(result, subjects));
        (subjects, i, subject_rings)
    } else if subjects.len() == 0 {
        assert(ccw_rings(result, clips));
        (clips, i, clip_rings)
    } else if clip_type == ClipType::Difference {
        assert(ccw_rings_permuted(result, subjects));
        let perm = choose|perm: Seq<usize>| #[trigger] ccw_rings_in_order(result, subjects, perm);
        (subjects, perm[i] as int, subject_rings)
    } else {
        let all = subjects + clips;
        assert(ccw_rings_permuted(result, all));
        let perm = choose|perm: Seq<usize>| #[trigger] ccw_rings_in_order(result, all, perm);
        let q = perm[i] as int;
        if q < subjects.len() {
            assert(all[q] == subjects[q]);
            (subjects, q, subject_rings)
        } else {
            assert(all[q] == clips[q - subjects.len()]);
            (clips, q - subjects.len(), clip_rings)
        }
    };
    assert(0 <= p < paths.len() && ccw_rotation_of(ring, paths[p]@));
    assert(exact_of(rings[p], paths[p]@));
    lemma_ccw_ring_point(ring, paths[p]@, j);
    let m = choose|m: int| 0 <= m < paths[p]@.len() && #[trigger] paths[p]@[m].qp() == ring[j].qp();
    assert(ring[j].qp() == point64_q(rings[p][m]));
}

/// An integer point as a rational point.
pub open spec fn point64_q(point: Point64) -> QPoint {
    ((point.x as int, 1int), (point.y as int, 1int))
}

/// Whether the integer `point` is the point at parameter `t` in `[0, 1]`
/// along the edge from point `m` of the closed integer path to the next
/// point.
pub open spec fn at_path64_parameter(path: Seq<Point64>, m: int, t: Q, point: Point64) -> bool {
    &&& 0 <= m < path.len()
    &&& 0 <= t.0 <= t.1
    &&& t.1 > 0
    &&& qp_same(
        point64_q(point),
        qp_point_at(point64_q(path[m]), point64_q(path[if m + 1 == path.len() { 0 } else { m + 1 }]), t),
    )
}

/// Whether the integer `point` lies on an edge of one of the closed integer
/// paths.
pub open spec fn on_paths64(paths: Seq<Seq<Point64>>, point: Point64) -> bool {
    exists|p: int, m: int, t: Q| 0 <= p < paths.len() && #[trigger] at_path64_parameter(paths[p], m, t, point)
}

/// Whether every point of every integer ring lies on an edge of a subject
/// or a clip path.
pub open spec fn rings64_on_inputs(
    rings: Seq<Vec<Point64>>,
    subjects: Seq<Seq<Point64>>,
    clips: Seq<Seq<Point64>>,
) -> bool {
    forall|i: int, j: int|
        0 <= i < rings.len() && 0 <= j < rings[i]@.len() ==> on_paths64(subjects, #[trigger] rings[i]@[j])
            || on_paths64(clips, rings[i]@[j])
}

/// A point on the exact copies of integer paths, taken at an integer point
/// equal to it, lies on the integer paths.
proof fn lemma_point_on_paths64(
    point: Point64,
    exact_point: QPoint,
    paths: Seq<Seq<Point64>>,
    exact: Seq<Vec<ExactPoint>>,
)
    requires
        qp_positive(exact_point),
        qp_same(point64_q(point), exact_point),
        on_paths(exact, exact_point),
        exact.len() == paths.len(),
        forall|p: int| 0 <= p < exact.len() ==> exact_of(paths[p], #[trigger] exact[p]@),
    ensures
        on_paths64(paths, point),
{
    let (p, m, t) = choose|p: int, m: int, t: Q| 0 <= p < exact.len() && #[trigger] at_path_parameter(exact[p]@, m, t, exact_point);
    assert(exact_of(paths[p], exact[p]@));
    let n = if m + 1 == paths[p].len() { 0 } else { m + 1 };
    assert(exact[p]@[m].qp() == point64_q(paths[p][m]));
    assert(exact[p]@[n].qp() == point64_q(paths[p][n]));
    lemma_qp_same_transitive(
        point64_q(point),
        exact_point,
        qp_point_at(point64_q(paths[p][m]), point64_q(paths[p][n]), t),
    );
    assert(at_path64_parameter(paths[p], m, t, point));
}

/// Integer rings equal to exact rings that lie on exact copies of the
/// integer inputs lie on the integer inputs.
pub proof fn lemma_rings64_on_inputs(
    converted: Seq<Vec<Point64>>,
    rings: Seq<Vec<ExactPoint>>,
    subjects: Seq<Seq<Point64>>,
    clips: Seq<Seq<Point64>>,
    exact_subjects: Seq<Vec<ExactPoint>>,
    exact_clips: Seq<Vec<ExactPoint>>,
)
    requires
        paths_wf(rings),
        rings_on_inputs(rings, exact_subjects, exact_clips),
        converted.len() == rings.len(),
        forall|i: int|
            0 <= i < rings.len() ==> (#[trigger] converted[i])@.len() == rings[i]@.len() && forall|j: int|
                0 <= j < rings[i]@.len() ==> (#[trigger] converted[i]@[j]).x * rings[i]@[j].x.den()
                    == rings[i]@[j].x.num() && converted[i]@[j].y * rings[i]@[j].y.den() == rings[i]@[j].y.num(),
        exact_subjects.len() == subjects.len(),
        forall|p: int| 0 <= p < exact_subjects.len() ==> exact_of(subjects[p], #[trigger] exact_subjects[p]@),
        exact_clips.len() == clips.len(),
        forall|p: int| 0 <= p < exact_clips.len() ==> exact_of(clips[p], #[trigger] exact_clips[p]@),
    ensures
        rings64_on_inputs(converted, subjects, clips),
{
    assert forall|i: int, j: int| 0 <= i < converted.len() && 0 <= j < converted[i]@.len() implies on_paths64(
        subjects,
        #[trigger] converted[i]@[j],
    ) || on_paths64(clips, converted[i]@[j]) by {
        assert(converted[i]@.len() == rings[i]@.len());
        let exact_point = rings[i]@[j];
        assert(points_wf(rings[i]@));
        assert(exact_point.wf());
        let c = converted[i]@[j];
        assert(c.x * exact_point.x.den() == exact_point.x.num());
        assert(qp_same(point64_q(c), exact_point.qp()));
        assert(on_paths(exact_subjects, rings[i]@[j].qp()) || on_paths(exact_clips, rings[i]@[j].qp()));
        if on_paths(exact_subjects, exact_point.qp()) {
            lemma_point_on_paths64(c, exact_point.qp(), subjects, exact_subjects);
        } else {
            lemma_point_on_paths64(c, exact_point.qp(), clips, exact_clips);
        }
    }
}

/// Whether `point` is, up to equal coordinates, the point at parameter `t`
/// in `[0, 1]` along the edge from point `m` of the open path to point
/// `m + 1`.
pub open spec fn at_open_parameter(path: Seq<ExactPoint>, m: int, t: Q, point: QPoint) -> bool {
    &&& 0 <= m
    &&& m + 1 < path.len()
    &&& 0 <= t.0 <= t.1
    &&& t.1 > 0
    &&& qp_same(point, qp_point_at(path[m].qp(), path[m + 1].qp(), t))
}

/// Whether `point` lies on an edge of the open path.
pub open spec fn on_open_path(path: Seq<ExactPoint>, point: QPoint) -> bool {
    exists|m: int, t: Q| #[trigger] at_open_parameter(path, m, t, point)
}

/// Whether every point of the polyline lies on an edge of the open path.
pub open spec fn line_on_open_path(line: Seq<ExactPoint>, path: Seq<ExactPoint>) -> bool {
    forall|j: int| 0 <= j < line.len() ==> on_open_path(path, #[trigger] line[j].qp())
}

/// Whether the polyline lies along one of the open paths.
pub open spec fn line_along_some(line: Seq<ExactPoint>, paths: Seq<Vec<ExactPoint>>) -> bool {
    exists|q: int| 0 <= q < paths.len() && #[trigger] line_on_open_path(line, paths[q]@)
}

/// Whether every output polyline lies along one of the open paths.
pub open spec fn lines_on_open_paths(output: Seq<Vec<ExactPoint>>, paths: Seq<Vec<ExactPoint>>) -> bool {
    forall|i: int| 0 <= i < output.len() ==> #[trigger] line_along_some(output[i]@, paths)
}

/// Whether the integer `point` is, up to equal coordinates, the point at
/// parameter `t` in `[0, 1]` along the segment from `start` to `end`.
pub open spec fn at_segment64(start: Point64, end: Point64, t: Q, point: Point64) -> bool {
    &&& 0 <= t.0 <= t.1
    &&& t.1 > 0
    &&& qp_same(point64_q(point), qp_point_at(point64_q(start), point64_q(end), t))
}

/// Whether the integer `point` lies on the segment from `start` to `end`.
pub open spec fn on_segment64(start: Point64, end: Point64, point: Point64) -> bool {
    exists|t: Q| #[trigger] at_segment64(start, end, t, point)
}

/// Whether the integer `point` lies on an edge of the open integer path.
pub open spec fn on_open_path64(path: Seq<Point64>, point: Point64) -> bool {
    exists|m: int| 0 <= m && m + 1 < path.len() && #[trigger] on_segment64(path[m], path[m + 1], point)
}

/// Whether every point of the integer polyline lies on an edge of the open
/// integer path.
pub open spec fn line64_on_open_path(line: Seq<Point64>, path: Seq<Point64>) -> bool {
    forall|j: int| 0 <= j < line.len() ==> on_open_path64(path, #[trigger] line[j])
}

/// Whether the integer polyline lies along one of the open paths,
/// normalized as an open path.
pub open spec fn line64_along_input(line: Seq<Point64>, paths: Seq<Vec<Point64>>) -> bool {
    exists|p: int| 0 <= p < paths.len() && #[trigger] line64_on_open_path(line, normalize_spec(paths[p]@, PathKind::Open))
}

/// Whether every output polyline lies along one of the open paths, each
/// normalized as an open path: open lines are cut from their own input line
/// and pick up no point from another.
pub open spec fn lines64_on_open_paths(output: Seq<Vec<Point64>>, paths: Seq<Vec<Point64>>) -> bool {
    forall|i: int| 0 <= i < output.len() ==> #[trigger] line64_along_input(output[i]@, paths)
}

/// Integer polylines equal to exact polylines that lie on exact copies of
/// the normalized open inputs lie on the open inputs.
pub proof fn lemma_lines64_on_open_paths(
    converted: Seq<Vec<Point64>>,
    lines: Seq<Vec<ExactPoint>>,
    paths: Seq<Vec<Point64>>,
    exact: Seq<Vec<ExactPoint>>,
)
    requires
        paths_wf(lines),
        lines_on_open_paths(lines, exact),
        converted.len() == lines.len(),
        forall|i: int|
            0 <= i < lines.len() ==> (#[trigger] converted[i])@.len() == lines[i]@.len() && forall|j: int|
                0 <= j < lines[i]@.len() ==> (#[trigger] converted[i]@[j]).x * lines[i]@[j].x.den()
                    == lines[i]@[j].x.num() && converted[i]@[j].y * lines[i]@[j].y.den() == lines[i]@[j].y.num(),
        forall|i: int| 0 <= i < exact.len() ==> crate::open_exact::open_exact_of(paths, #[trigger] exact[i]@),
    ensures
        lines64_on_open_paths(converted, paths),
{
    assert forall|i: int| 0 <= i < converted.len() implies #[trigger] line64_along_input(converted[i]@, paths) by {
        assert(converted[i]@.len() == lines[i]@.len());
        assert(line_along_some(lines[i]@, exact));
        let q = choose|q: int| 0 <= q < exact.len() && #[trigger] line_on_open_path(lines[i]@, exact[q]@);
        assert(crate::open_exact::open_exact_of(paths, exact[q]@));
        let p = choose|p: int| 0 <= p < paths.len() && #[trigger] exact_of(normalize_spec(paths[p]@, PathKind::Open), exact[q]@);
        let path = normalize_spec(paths[p]@, PathKind::Open);
        assert forall|j: int| 0 <= j < converted[i]@.len() implies on_open_path64(path, #[trigger] converted[i]@[j]) by {
            let e = lines[i]@[j];
            assert(points_wf(lines[i]@));
            assert(e.wf());
            let c = converted[i]@[j];
            assert(c.x * e.x.den() == e.x.num());
            assert(qp_same(point64_q(c), e.qp()));
            assert(on_open_path(exact[q]@, lines[i]@[j].qp()));
            let (m, t) = choose|m: int, t: Q| #[trigger] at_open_parameter(exact[q]@, m, t, e.qp());
            assert(exact[q]@[m].qp() == point64_q(path[m]));
            assert(exact[q]@[m + 1].qp() == point64_q(path[m + 1]));
            lemma_qp_same_transitive(point64_q(c), e.qp(), qp_point_at(point64_q(path[m]), point64_q(path[m + 1]), t));
            assert(at_segment64(path[m], path[m + 1], t, c));
            assert(on_segment64(path[m], path[m + 1], c));
        }
        assert(line64_on_open_path(converted[i]@, path));
    }
}

/// A coordinate at parameter `t0 / t1` along `sc -> ec`.
proof fn lemma_coordinate_at(pc: int, sc: int, ec: int, t0: int, t1: int)
    requires
        pc * t1 == sc * t1 + (ec - sc) * t0,
    ensures
        crate::rational::q_same(
            (pc, 1int),
            crate::rational::q_add((sc, 1int), crate::rational::q_mul(crate::rational::q_sub((ec, 1int), (sc, 1int)), (t0, t1))),
        ),
{
    assert(pc * (1 * ((1 * 1) * t1)) == (sc * ((1 * 1) * t1) + ((ec * 1 - sc * 1) * t0) * 1) * 1) by (nonlinear_arith)
        requires
            pc * t1 == sc * t1 + (ec - sc) * t0,
    ;
}

/// The point at parameter `t0 / t1` along `start -> end`.
pub proof fn lemma_at_segment64(start: Point64, end: Point64, point: Point64, t0: int, t1: int)
    requires
        0 <= t0 <= t1,
        t1 > 0,
        point.x * t1 == start.x * t1 + (end.x - start.x) * t0,
        point.y * t1 == start.y * t1 + (end.y - start.y) * t0,
    ensures
        on_segment64(start, end, point),
{
    lemma_coordinate_at(point.x as int, start.x as int, end.x as int, t0, t1);
    lemma_coordinate_at(point.y as int, start.y as int, end.y as int, t0, t1);
    assert(at_segment64(start, end, (t0, t1), point));
}

/// A point of the closed segment lies at a parameter in `[0, 1]` along it.
pub proof fn lemma_on_segment64(start: Point64, end: Point64, point: Point64)
    requires
        crate::geometry::on_segment_spec(point, start, end),
    ensures
        on_segment64(start, end, point),
{
    let (sx, sy, ex, ey, px, py) = (start.x as int, start.y as int, end.x as int, end.y as int, point.x as int, point.y as int);
    assert((ex - sx) * (py - sy) - (ey - sy) * (px - sx) == 0);
    if ex != sx {
        let d = ex - sx;
        let n = px - sx;
        if d > 0 {
            assert(px * d == sx * d + d * n) by (nonlinear_arith)
                requires
                    n == px - sx,
            ;
            assert(py * d == sy * d + (ey - sy) * n) by (nonlinear_arith)
                requires
                    n == px - sx,
                    d == ex - sx,
                    d * (py - sy) - (ey - sy) * (px - sx) == 0,
            ;
            lemma_at_segment64(start, end, point, n, d);
        } else {
            assert(px * (-d) == sx * (-d) + d * (-n)) by (nonlinear_arith)
                requires
                    n == px - sx,
            ;
            assert(py * (-d) == sy * (-d) + (ey - sy) * (-n)) by (nonlinear_arith)
                requires
                    n == px - sx,
                    d == ex - sx,
                    d * (py - sy) - (ey - sy) * (px - sx) == 0,
            ;
            lemma_at_segment64(start, end, point, -n, -d);
        }
    } else if ey != sy {
        let d = ey - sy;
        let n = py - sy;
        assert(px == sx);
        if d > 0 {
            assert(py * d == sy * d + d * n) by (nonlinear_arith)
                requires
                    n == py - sy,
            ;
            assert(px * d == sx * d + (ex - sx) * n) by (nonlinear_arith)
                requires
                    px == sx,
                    ex == sx,
            ;
            lemma_at_segment64(start, end, point, n, d);
        } else {
            assert(py * (-d) == sy * (-d) + d * (-n)) by (nonlinear_arith)
                requires
                    n == py - sy,
            ;
            assert(px * (-d) == sx * (-d) + (ex - sx) * (-n)) by (nonlinear_arith)
                requires
                    px == sx,
                    ex == sx,
            ;
            lemma_at_segment64(start, end, point, -n, -d);
        }
    } else {
        assert(px == sx && py == sy);
        assert(point.x * 1 == start.x * 1 + (end.x - start.x) * 0 && point.y * 1 == start.y * 1 + (end.y - start.y) * 0)
            by (nonlinear_arith)
            requires
                px == sx,
                py == sy,
                px == point.x,
                sx == start.x,
                py == point.y,
                sy == start.y,
        ;
        lemma_at_segment64(start, end, point, 0, 1);
    }
}

} // verus!
