//! The exact arrangement overlay: noding, face labelling and ring tracing.

use vstd::prelude::*;

use crate::arrangement::{
    path_order, starts_at_smallest, Edge, canonicalize_ring, compare_paths, copy_path, edge_of_path, edges_intersect, exact_area2, is_rotation,
    edge_from_path, path_bbox, path_edge_listed, path_edges, path_qbox, paths_bbox, permutes, point_at, proper_step,
    proper_steps, q_area_prefix, qbox_touch, rationals_wf, reverse_exact, same_path, segments_intersect,
    segments_on_one_line, sort_paths, sort_unique, split_edge_pair, unit_endpoints, QBox, paths_qbox, q_max, q_min,
};
use crate::sorting::distinct_indices;
use crate::error::Error;
use crate::exact::{
    ExactPoint, QPoint, cross_vectors, edge_count, lemma_qp_same_transitive, paths_wf, paths_winding_at,
    point_on_segment_exact, points_wf, qp_cross, qp_on_segment, qp_same,
};
use crate::geometry::sign;
use crate::rational::{Q, Rational, q_add, q_mul, q_same};
use crate::request::{ClipType, FillRule};
use crate::sorting::sort_indices_by;
use crate::winding::{WindingPair, apply_operation, operation_from_windings, winding_contains};

verus! {

/// A noded piece of a source edge.
pub struct AtomicEdge {
    /// First endpoint.
    pub start: ExactPoint,
    /// Second endpoint.
    pub end: ExactPoint,
    /// Whether the source edge belongs to a subject path.
    pub subject: bool,
}

/// A merged arrangement edge, oriented from its smaller to its larger point,
/// with the winding change it carries for subjects and clips.
pub struct ArrangementEdge {
    /// Lexicographically smaller endpoint.
    pub start: ExactPoint,
    /// Lexicographically larger endpoint.
    pub end: ExactPoint,
    /// Net subject winding change across the edge.
    pub subject_delta: i128,
    /// Net clip winding change across the edge.
    pub clip_delta: i128,
}

/// A boundary edge of the result, with the filled side on its left.
pub struct DirectedEdge {
    /// First endpoint.
    pub start: ExactPoint,
    /// Second endpoint.
    pub end: ExactPoint,
}

/// Both endpoints of every atomic edge are well-formed.
pub open spec fn atomic_wf(edges: Seq<AtomicEdge>) -> bool {
    forall|i: int| 0 <= i < edges.len() ==> (#[trigger] edges[i]).start.wf() && edges[i].end.wf()
}

/// Both endpoints of every arrangement edge are well-formed.
pub open spec fn arrangement_wf(edges: Seq<ArrangementEdge>) -> bool {
    forall|i: int| 0 <= i < edges.len() ==> (#[trigger] edges[i]).start.wf() && edges[i].end.wf()
}

/// Both endpoints of every directed edge are well-formed.
pub open spec fn directed_wf(edges: Seq<DirectedEdge>) -> bool {
    forall|i: int| 0 <= i < edges.len() ==> (#[trigger] edges[i]).start.wf() && edges[i].end.wf()
}

/// Every edge is well-formed and proper.
pub open spec fn edges_wf(edges: Seq<Edge>) -> bool {
    forall|i: int| 0 <= i < edges.len() ==> (#[trigger] edges[i]).wf() && edges[i].proper()
}

/// Every parameter list is well-formed.
pub open spec fn parameter_lists_wf(lists: Seq<Vec<Rational>>) -> bool {
    forall|i: int| 0 <= i < lists.len() ==> rationals_wf(#[trigger] lists[i]@)
}

/// The identity order `0, 1, ..., len - 1`.
pub fn identity_order(len: usize) -> (order: Vec<usize>)
    ensures
        order@.len() == len,
        forall|k: int| 0 <= k < order@.len() ==> #[trigger] order@[k] < len,
        forall|k: int| 0 <= k < order@.len() ==> #[trigger] order@[k] == k,
{
    let mut order: Vec<usize> = Vec::new();
    let mut index: usize = 0;
    while index < len
        invariant
            index <= len,
            order@.len() == index,
            forall|k: int| 0 <= k < order@.len() ==> #[trigger] order@[k] < len,
            forall|k: int| 0 <= k < order@.len() ==> #[trigger] order@[k] == k,
        decreases len - index,
    {
        order.push(index);
        index += 1;
    }
    order
}

/// Whether a direction points into the upper half plane: up, or along the
/// positive `x` axis (the zero vector included).
pub open spec fn upper_direction(v: QPoint) -> bool {
    v.1.0 > 0 || (v.1.0 == 0 && v.0.0 >= 0)
}

/// The squared length of a direction.
pub open spec fn squared_length(v: QPoint) -> Q {
    q_add(q_mul(v.0, v.0), q_mul(v.1, v.1))
}

/// The order of two directions by angle, counter-clockwise from the
/// positive `x` axis, equal angles by length: -1, 0 or 1.
pub open spec fn angle_order(u: QPoint, v: QPoint) -> int {
    if upper_direction(u) != upper_direction(v) {
        if upper_direction(u) {
            -1
        } else {
            1
        }
    } else if qp_cross(u, v).0 != 0 {
        if qp_cross(u, v).0 > 0 {
            -1
        } else {
            1
        }
    } else {
        let a = squared_length(u);
        let b = squared_length(v);
        sign(a.0 * b.1 - b.0 * a.1)
    }
}

/// Orders directions by angle, counter-clockwise from the positive `x` axis;
/// equal angles by length. Returns -1, 0 or 1.
pub fn compare_angle(first: &ExactPoint, second: &ExactPoint) -> (result: i8)
    requires
        first.wf(),
        second.wf(),
    ensures
        -1 <= result <= 1,
        result == angle_order(first.qp(), second.qp()),
{
    let zero = Rational::zero();
    let first_upper = zero.lt(&first.y) || (first.y.is_zero() && zero.le(&first.x));
    let second_upper = zero.lt(&second.y) || (second.y.is_zero() && zero.le(&second.x));
    if first_upper != second_upper {
        return if first_upper {
            -1
        } else {
            1
        };
    }
    let cross = cross_vectors(first, second);
    if !cross.is_zero() {
        return if cross.is_positive() {
            -1
        } else {
            1
        };
    }
    let first_length = first.x.mul(&first.x).add(&first.y.mul(&first.y));
    let second_length = second.x.mul(&second.x).add(&second.y.mul(&second.y));
    first_length.compare(&second_length)
}

/// Whether the proper edge leaving point `m` of closed path `s` and the
/// proper edge leaving point `n` of closed path `c` share a run.
pub open spec fn steps_share_run(s: Seq<ExactPoint>, c: Seq<ExactPoint>, m: int, n: int) -> bool {
    &&& proper_step(s, m)
    &&& proper_step(c, n)
    &&& segments_share_run(
        s[m].qp(),
        s[if m + 1 == s.len() { 0 } else { m + 1 }].qp(),
        c[n].qp(),
        c[if n + 1 == c.len() { 0 } else { n + 1 }].qp(),
    )
}

/// Whether some proper edges of two closed paths share a run.
pub open spec fn paths_share_run(s: Seq<ExactPoint>, c: Seq<ExactPoint>) -> bool {
    exists|m: int, n: int| 0 <= m < s.len() && 0 <= n < c.len() && #[trigger] steps_share_run(s, c, m, n)
}

/// Whether some subject path and some clip path share a run.
pub open spec fn sets_share_run(subjects: Seq<Vec<ExactPoint>>, clips: Seq<Vec<ExactPoint>>) -> bool {
    exists|a: int, b: int|
        0 <= a < subjects.len() && 0 <= b < clips.len() && #[trigger] paths_share_run(subjects[a]@, clips[b]@)
}

/// Two proper edges taken from two paths that share a run show that the
/// paths share a run.
proof fn lemma_run_found(s: Seq<ExactPoint>, c: Seq<ExactPoint>, first: Edge, second: Edge)
    requires
        first.proper(),
        second.proper(),
        edge_from_path(s, first),
        edge_from_path(c, second),
        segments_share_run(first.start.qp(), first.end.qp(), second.start.qp(), second.end.qp()),
    ensures
        paths_share_run(s, c),
{
    let m = choose|m: int| 0 <= m < s.len() && #[trigger] edge_of_path(s, m, first);
    let n = choose|n: int| 0 <= n < c.len() && #[trigger] edge_of_path(c, n, second);
    assert(steps_share_run(s, c, m, n));
}

/// When no edge of one list shares a run with an edge of the other, and the
/// lists hold every proper edge of their paths, the paths share no run.
proof fn lemma_no_run(s: Seq<ExactPoint>, c: Seq<ExactPoint>, first: Seq<Edge>, second: Seq<Edge>)
    requires
        forall|m: int| 0 <= m < s.len() && #[trigger] proper_step(s, m) ==> path_edge_listed(s, first, m),
        forall|n: int| 0 <= n < c.len() && #[trigger] proper_step(c, n) ==> path_edge_listed(c, second, n),
        forall|k: int, l: int|
            0 <= k < first.len() && 0 <= l < second.len() ==> !segments_share_run(
                (#[trigger] first[k]).start.qp(),
                first[k].end.qp(),
                (#[trigger] second[l]).start.qp(),
                second[l].end.qp(),
            ),
    ensures
        !paths_share_run(s, c),
{
    if paths_share_run(s, c) {
        let (m, n) = choose|m: int, n: int|
            0 <= m < s.len() && 0 <= n < c.len() && #[trigger] steps_share_run(s, c, m, n);
        assert(path_edge_listed(s, first, m));
        assert(path_edge_listed(c, second, n));
        let k = choose|k: int| 0 <= k < first.len() && #[trigger] edge_of_path(s, m, first[k]);
        let l = choose|l: int| 0 <= l < second.len() && #[trigger] edge_of_path(c, n, second[l]);
        assert(!segments_share_run(first[k].start.qp(), first[k].end.qp(), second[l].start.qp(), second[l].end.qp()));
    }
}

/// Whether the two sets of paths share a collinear run of positive length.
pub fn sets_have_segment_contact(subjects: &[Vec<ExactPoint>], clips: &[Vec<ExactPoint>]) -> (result: bool)
    requires
        paths_wf(subjects@),
        paths_wf(clips@),
    ensures
        result == sets_share_run(subjects@, clips@),
{
    let mut s: usize = 0;
    while s < subjects.len()
        invariant
            paths_wf(subjects@),
            paths_wf(clips@),
            s <= subjects@.len(),
            forall|a: int, b: int|
                0 <= a < s && 0 <= b < clips@.len() ==> !#[trigger] paths_share_run(subjects@[a]@, clips@[b]@),
        decreases subjects@.len() - s,
    {
        proof {
            assert(points_wf(subjects@[s as int]@));
        }
        let subject_edges = path_edges(&subjects[s]);
        let ghost subject = subjects@[s as int]@;
        let mut c: usize = 0;
        while c < clips.len()
            invariant
                paths_wf(subjects@),
                paths_wf(clips@),
                s < subjects@.len(),
                subject == subjects@[s as int]@,
                c <= clips@.len(),
                edges_wf(subject_edges@),
                forall|k: int| 0 <= k < subject_edges@.len() ==> #[trigger] edge_from_path(subject, subject_edges@[k]),
                forall|m: int|
                    0 <= m < subject.len() && #[trigger] proper_step(subject, m) ==> path_edge_listed(
                        subject,
                        subject_edges@,
                        m,
                    ),
                forall|a: int, b: int|
                    0 <= a < s && 0 <= b < clips@.len() ==> !#[trigger] paths_share_run(subjects@[a]@, clips@[b]@),
                forall|b: int| 0 <= b < c ==> !#[trigger] paths_share_run(subject, clips@[b]@),
            decreases clips@.len() - c,
        {
            proof {
                assert(points_wf(clips@[c as int]@));
            }
            let clip_edges = path_edges(&clips[c]);
            let ghost clip = clips@[c as int]@;
            let mut i: usize = 0;
            while i < subject_edges.len()
                invariant
                    paths_wf(subjects@),
                    paths_wf(clips@),
                    s < subjects@.len(),
                    c < clips@.len(),
                    subject == subjects@[s as int]@,
                    clip == clips@[c as int]@,
                    edges_wf(subject_edges@),
                    edges_wf(clip_edges@),
                    forall|k: int| 0 <= k < subject_edges@.len() ==> #[trigger] edge_from_path(subject, subject_edges@[k]),
                    forall|l: int| 0 <= l < clip_edges@.len() ==> #[trigger] edge_from_path(clip, clip_edges@[l]),
                    i <= subject_edges@.len(),
                    forall|k: int, l: int|
                        0 <= k < i && 0 <= l < clip_edges@.len() ==> !segments_share_run(
                            (#[trigger] subject_edges@[k]).start.qp(),
                            subject_edges@[k].end.qp(),
                            (#[trigger] clip_edges@[l]).start.qp(),
                            clip_edges@[l].end.qp(),
                        ),
                decreases subject_edges@.len() - i,
            {
                let mut j: usize = 0;
                while j < clip_edges.len()
                    invariant
                        paths_wf(subjects@),
                        paths_wf(clips@),
                        s < subjects@.len(),
                        c < clips@.len(),
                        subject == subjects@[s as int]@,
                        clip == clips@[c as int]@,
                        edges_wf(subject_edges@),
                        edges_wf(clip_edges@),
                        forall|k: int|
                            0 <= k < subject_edges@.len() ==> #[trigger] edge_from_path(subject, subject_edges@[k]),
                        forall|l: int| 0 <= l < clip_edges@.len() ==> #[trigger] edge_from_path(clip, clip_edges@[l]),
                        i < subject_edges@.len(),
                        j <= clip_edges@.len(),
                        forall|k: int, l: int|
                            0 <= k < i && 0 <= l < clip_edges@.len() ==> !segments_share_run(
                                (#[trigger] subject_edges@[k]).start.qp(),
                                subject_edges@[k].end.qp(),
                                (#[trigger] clip_edges@[l]).start.qp(),
                                clip_edges@[l].end.qp(),
                            ),
                        forall|l: int|
                            0 <= l < j ==> !segments_share_run(
                                subject_edges@[i as int].start.qp(),
                                subject_edges@[i as int].end.qp(),
                                (#[trigger] clip_edges@[l]).start.qp(),
                                clip_edges@[l].end.qp(),
                            ),
                    decreases clip_edges@.len() - j,
                {
                    proof {
                        assert(subject_edges@[i as int].wf());
                        assert(clip_edges@[j as int].wf());
                    }
                    if edges_share_run(&subject_edges[i], &clip_edges[j]) {
                        proof {
                            assert(edge_from_path(subject, subject_edges@[i as int]));
                            assert(edge_from_path(clip, clip_edges@[j as int]));
                            lemma_run_found(subject, clip, subject_edges@[i as int], clip_edges@[j as int]);
                            assert(paths_share_run(subjects@[s as int]@, clips@[c as int]@));
                        }
                        return true;
                    }
                    j += 1;
                }
                i += 1;
            }
            proof {
                lemma_no_run(subject, clip, subject_edges@, clip_edges@);
            }
            c += 1;
        }
        s += 1;
    }
    false
}

/// The endpoints of two segments: `a0`, `a1`, `b0`, `b1`.
pub open spec fn run_ends(a0: QPoint, a1: QPoint, b0: QPoint, b1: QPoint) -> Seq<QPoint> {
    seq![a0, a1, b0, b1]
}

/// Whether endpoint `i` of `run_ends` lies on both segments.
pub open spec fn end_on_both(a0: QPoint, a1: QPoint, b0: QPoint, b1: QPoint, i: int) -> bool {
    let point = run_ends(a0, a1, b0, b1)[i];
    qp_on_segment(point, a0, a1) && qp_on_segment(point, b0, b1)
}

/// Whether two segments on one line share a run of positive length: two
/// distinct endpoints lie on both.
pub open spec fn segments_share_run(a0: QPoint, a1: QPoint, b0: QPoint, b1: QPoint) -> bool {
    &&& segments_on_one_line(a0, a1, b0, b1)
    &&& exists|i: int, j: int|
        0 <= i < 4 && 0 <= j < 4 && #[trigger] end_on_both(a0, a1, b0, b1, i) && #[trigger] end_on_both(
            a0,
            a1,
            b0,
            b1,
            j,
        ) && !qp_same(run_ends(a0, a1, b0, b1)[i], run_ends(a0, a1, b0, b1)[j])
}

fn edges_share_run(subject_edge: &Edge, clip_edge: &Edge) -> (result: bool)
    requires
        subject_edge.wf(),
        clip_edge.wf(),
    ensures
        result == segments_share_run(
            subject_edge.start.qp(),
            subject_edge.end.qp(),
            clip_edge.start.qp(),
            clip_edge.end.qp(),
        ),
{
    let ghost a0 = subject_edge.start.qp();
    let ghost a1 = subject_edge.end.qp();
    let ghost b0 = clip_edge.start.qp();
    let ghost b1 = clip_edge.end.qp();
    let ghost ends = run_ends(a0, a1, b0, b1);
    let first_vector = subject_edge.end.sub(&subject_edge.start);
    let second_vector = clip_edge.end.sub(&clip_edge.start);
    let between = clip_edge.start.sub(&subject_edge.start);
    if !cross_vectors(&first_vector, &second_vector).is_zero() || !cross_vectors(&between, &first_vector).is_zero() {
        return false;
    }
    let mut shared: Vec<ExactPoint> = Vec::new();
    let candidates = [
        subject_edge.start.copy(),
        subject_edge.end.copy(),
        clip_edge.start.copy(),
        clip_edge.end.copy(),
    ];
    let ghost mut origin: Seq<int> = Seq::empty();
    let ghost mut cover: Seq<int> = Seq::empty();
    let mut k: usize = 0;
    while k < 4
        invariant
            subject_edge.wf(),
            clip_edge.wf(),
            ends == run_ends(a0, a1, b0, b1),
            a0 == subject_edge.start.qp(),
            a1 == subject_edge.end.qp(),
            b0 == clip_edge.start.qp(),
            b1 == clip_edge.end.qp(),
            forall|i: int| 0 <= i < 4 ==> (#[trigger] candidates@[i]).wf() && candidates@[i].qp() == ends[i],
            points_wf(shared@),
            k <= 4,
            origin.len() == shared@.len(),
            forall|s: int|
                0 <= s < shared@.len() ==> 0 <= #[trigger] origin[s] < k && shared@[s].qp() == ends[origin[s]]
                    && end_on_both(a0, a1, b0, b1, origin[s]),
            forall|s: int, t: int|
                0 <= s < t < shared@.len() ==> !qp_same((#[trigger] shared@[s]).qp(), (#[trigger] shared@[t]).qp()),
            cover.len() == k,
            forall|i: int|
                0 <= i < k && #[trigger] end_on_both(a0, a1, b0, b1, i) ==> 0 <= cover[i] < shared@.len() && qp_same(
                    shared@[cover[i]].qp(),
                    ends[i],
                ),
        decreases 4 - k,
    {
        let point = &candidates[k];
        if point_on_segment_exact(point, &subject_edge.start, &subject_edge.end)
            && point_on_segment_exact(point, &clip_edge.start, &clip_edge.end) {
            let mut present = false;
            let ghost mut hit: int = 0;
            let mut m: usize = 0;
            while m < shared.len()
                invariant
                    points_wf(shared@),
                    point.wf(),
                    m <= shared@.len(),
                    present ==> 0 <= hit < shared@.len() && qp_same(shared@[hit].qp(), point.qp()),
                    !present ==> forall|t: int| 0 <= t < m ==> !qp_same((#[trigger] shared@[t]).qp(), point.qp()),
                decreases shared@.len() - m,
            {
                proof {
                    assert(shared@[m as int].wf());
                }
                if shared[m].equals(point) {
                    present = true;
                    proof {
                        hit = m as int;
                    }
                }
                m += 1;
            }
            let ghost before = shared@;
            if !present {
                shared.push(point.copy());
                proof {
                    origin = origin.push(k as int);
                    cover = cover.push(before.len() as int);
                    assert forall|s: int, t: int| 0 <= s < t < shared@.len() implies !qp_same(
                        (#[trigger] shared@[s]).qp(),
                        (#[trigger] shared@[t]).qp(),
                    ) by {
                        if t == before.len() {
                            assert(!qp_same(before[s].qp(), point.qp()));
                        } else {
                            assert(shared@[s] == before[s] && shared@[t] == before[t]);
                        }
                    }
                    assert forall|s: int| 0 <= s < shared@.len() implies 0 <= #[trigger] origin[s] < k + 1
                        && shared@[s].qp() == ends[origin[s]] && end_on_both(a0, a1, b0, b1, origin[s]) by {
                        if s < before.len() {
                            assert(shared@[s] == before[s]);
                        }
                    }
                    assert forall|i: int|
                        0 <= i < k + 1 && #[trigger] end_on_both(a0, a1, b0, b1, i) implies 0 <= cover[i]
                        < shared@.len() && qp_same(shared@[cover[i]].qp(), ends[i]) by {
                        if i < k {
                            assert(shared@[cover[i]] == before[cover[i]]);
                        }
                    }
                }
            } else {
                proof {
                    cover = cover.push(hit);
                }
            }
        } else {
            proof {
                cover = cover.push(0);
            }
        }
        k += 1;
    }
    proof {
        if shared@.len() >= 2 {
            assert(end_on_both(a0, a1, b0, b1, origin[0]));
            assert(end_on_both(a0, a1, b0, b1, origin[1]));
            assert(!qp_same(shared@[0].qp(), shared@[1].qp()));
        } else {
            assert forall|i: int, j: int|
                0 <= i < 4 && 0 <= j < 4 && #[trigger] end_on_both(a0, a1, b0, b1, i) && #[trigger] end_on_both(
                    a0,
                    a1,
                    b0,
                    b1,
                    j,
                ) implies qp_same(ends[i], ends[j]) by {
                assert(cover[i] == 0 && cover[j] == 0);
                assert(shared@[0].wf());
                assert(candidates@[i].wf() && candidates@[j].wf());
                lemma_qp_same_transitive(ends[i], shared@[0].qp(), ends[j]);
            }
        }
    }
    shared.len() >= 2
}

/// Whether the edges leaving the `a`-th and the `b`-th proper steps of a
/// closed path intersect.
pub open spec fn steps_intersect(path: Seq<ExactPoint>, steps: Seq<int>, a: int, b: int) -> bool {
    let i = steps[a];
    let j = steps[b];
    segments_intersect(
        path[i].qp(),
        path[if i + 1 == path.len() { 0 } else { i + 1 }].qp(),
        path[j].qp(),
        path[if j + 1 == path.len() { 0 } else { j + 1 }].qp(),
    )
}

/// Whether no two proper edges of the closed path intersect.
pub open spec fn path_simple(path: Seq<ExactPoint>) -> bool {
    let steps = proper_steps(path, path.len() as int);
    forall|a: int, b: int| 0 <= a < b < steps.len() ==> !#[trigger] steps_intersect(path, steps, a, b)
}

/// Whether the box of path `i` touches no point of the box of path `j`,
/// when path `j` is nonempty.
pub open spec fn path_separated(paths: Seq<Vec<ExactPoint>>, i: int, j: int) -> bool {
    paths[j]@.len() > 0 ==> !qbox_touch(
        path_qbox(paths[i]@, paths[i]@.len()),
        path_qbox(paths[j]@, paths[j]@.len()),
    )
}

/// Whether path `i`, when it has at least three points, is simple and
/// separated from every later path.
pub open spec fn path_isolated(paths: Seq<Vec<ExactPoint>>, i: int) -> bool {
    paths[i]@.len() >= 3 ==> path_simple(paths[i]@) && forall|j: int|
        i < j < paths.len() ==> #[trigger] path_separated(paths, i, j)
}

/// Whether every path of at least three points is simple and separated from
/// every later path.
pub open spec fn paths_simple_and_disjoint(paths: Seq<Vec<ExactPoint>>) -> bool {
    forall|i: int| 0 <= i < paths.len() ==> #[trigger] path_isolated(paths, i)
}

/// Whether every path is free of self-contact and the paths' bounding boxes
/// are pairwise separated.
pub fn paths_are_simple_and_disjoint(paths: &[Vec<ExactPoint>]) -> (result: bool)
    requires
        paths_wf(paths@),
    ensures
        result == paths_simple_and_disjoint(paths@),
{
    let mut index: usize = 0;
    while index < paths.len()
        invariant
            paths_wf(paths@),
            index <= paths@.len(),
            forall|i: int| 0 <= i < index ==> #[trigger] path_isolated(paths@, i),
        decreases paths@.len() - index,
    {
        proof {
            assert(points_wf(paths@[index as int]@));
        }
        let ghost path = paths@[index as int]@;
        if paths[index].len() >= 3 {
            let edges = path_edges(&paths[index]);
            let ghost steps = proper_steps(path, path.len() as int);
            let mut first: usize = 0;
            while first < edges.len()
                invariant
                    edges_wf(edges@),
                    first <= edges@.len(),
                    index < paths@.len(),
                    path == paths@[index as int]@,
                    path.len() >= 3,
                    steps == proper_steps(path, path.len() as int),
                    edges@.len() == steps.len(),
                    forall|k: int| 0 <= k < edges@.len() ==> edge_of_path(path, steps[k], #[trigger] edges@[k]),
                    forall|a: int, b: int|
                        0 <= a < first && a < b < steps.len() ==> !#[trigger] steps_intersect(path, steps, a, b),
                decreases edges@.len() - first,
            {
                let mut other = first + 1;
                while other < edges.len()
                    invariant
                        edges_wf(edges@),
                        first < edges@.len(),
                        first + 1 <= other <= edges@.len(),
                        index < paths@.len(),
                        path == paths@[index as int]@,
                        path.len() >= 3,
                        steps == proper_steps(path, path.len() as int),
                        edges@.len() == steps.len(),
                        forall|k: int| 0 <= k < edges@.len() ==> edge_of_path(path, steps[k], #[trigger] edges@[k]),
                        forall|a: int, b: int|
                            0 <= a < first && a < b < steps.len() ==> !#[trigger] steps_intersect(path, steps, a, b),
                        forall|b: int| first < b < other ==> !#[trigger] steps_intersect(path, steps, first as int, b),
                    decreases edges@.len() - other,
                {
                    proof {
                        assert(edges@[first as int].wf());
                        assert(edges@[other as int].wf());
                        assert(edge_of_path(path, steps[first as int], edges@[first as int]));
                        assert(edge_of_path(path, steps[other as int], edges@[other as int]));
                    }
                    if edges_intersect(&edges[first], &edges[other]) {
                        proof {
                            assert(steps_intersect(path, steps, first as int, other as int));
                            assert(!path_isolated(paths@, index as int));
                        }
                        return false;
                    }
                    other += 1;
                }
                first += 1;
            }
            let path_box = match path_bbox(&paths[index]) {
                Some(bounds) => bounds,
                None => return false,
            };
            let mut later = index + 1;
            while later < paths.len()
                invariant
                    paths_wf(paths@),
                    index < later <= paths@.len(),
                    paths@[index as int]@.len() >= 3,
                    path_box.wf(),
                    path_box.q() == path_qbox(paths@[index as int]@, paths@[index as int]@.len()),
                    forall|j: int| index < j < later ==> #[trigger] path_separated(paths@, index as int, j),
                decreases paths@.len() - later,
            {
                proof {
                    assert(points_wf(paths@[later as int]@));
                }
                match path_bbox(&paths[later]) {
                    None => {},
                    Some(other_box) => {
                        if path_box.touches(&other_box) {
                            proof {
                                assert(!path_separated(paths@, index as int, later as int));
                                assert(!path_isolated(paths@, index as int));
                            }
                            return false;
                        }
                    },
                }
                later += 1;
            }
            proof {
                assert(path_simple(path));
                assert(path_isolated(paths@, index as int));
            }
        }
        index += 1;
    }
    true
}

/// The ring turned counter-clockwise: reversed when its signed area is
/// negative.
pub open spec fn counter_clockwise(path: Seq<ExactPoint>) -> Seq<ExactPoint> {
    if q_area_prefix(path, path.len()).0 < 0 {
        path.reverse()
    } else {
        path
    }
}

/// Whether `result` is `path` turned counter-clockwise and rotated to some
/// start.
pub open spec fn ccw_rotation_of(result: Seq<ExactPoint>, path: Seq<ExactPoint>) -> bool {
    &&& result.len() == path.len()
    &&& path.len() > 0 ==> exists|start: int| #[trigger] is_rotation(result, counter_clockwise(path), start)
}

proof fn lemma_rotation_respects_copies(result: Seq<ExactPoint>, ring: Seq<ExactPoint>, copy: Seq<ExactPoint>, start: int)
    requires
        is_rotation(result, copy, start),
        copy.len() == ring.len(),
        forall|i: int| 0 <= i < ring.len() ==> (#[trigger] copy[i]).qp() == ring[i].qp(),
    ensures
        is_rotation(result, ring, start),
{
    assert forall|k: int| 0 <= k < ring.len() implies (#[trigger] result[k]).qp() == ring[(start + k) % (
    ring.len() as int)].qp() by {
        let j = (start + k) % (ring.len() as int);
        assert(0 <= j < ring.len()) by {
            vstd::arithmetic::div_mod::lemma_mod_bound(start + k, ring.len() as int);
        }
    }
}

proof fn lemma_same_path_rotation(a: Seq<ExactPoint>, b: Seq<ExactPoint>, path: Seq<ExactPoint>)
    requires
        same_path(a, b),
        ccw_rotation_of(b, path),
    ensures
        ccw_rotation_of(a, path),
{
    if path.len() > 0 {
        let start = choose|start: int| #[trigger] is_rotation(b, counter_clockwise(path), start);
        assert(is_rotation(a, counter_clockwise(path), start));
    }
}

/// The rings, each oriented counter-clockwise and rotated to start at its
/// smallest point.
pub fn direct_paths(paths: &[Vec<ExactPoint>]) -> (result: Vec<Vec<ExactPoint>>)
    requires
        paths_wf(paths@),
    ensures
        paths_wf(result@),
        result@.len() == paths@.len(),
        forall|i: int| 0 <= i < result@.len() ==> ccw_rotation_of(#[trigger] result@[i]@, paths@[i]@),
        rings_canonical(result@),
{
    let mut result: Vec<Vec<ExactPoint>> = Vec::new();
    let mut index: usize = 0;
    while index < paths.len()
        invariant
            paths_wf(paths@),
            paths_wf(result@),
            index <= paths@.len(),
            result@.len() == index,
            forall|i: int| 0 <= i < result@.len() ==> ccw_rotation_of(#[trigger] result@[i]@, paths@[i]@),
            rings_canonical(result@),
        decreases paths@.len() - index,
    {
        proof {
            assert(points_wf(paths@[index as int]@));
        }
        let path = &paths[index];
        let oriented = if exact_area2(path).is_negative() {
            let reversed = reverse_exact(path);
            proof {
                assert forall|i: int| 0 <= i < path@.len() implies (#[trigger] reversed@[i]).qp() == path@.reverse()[i].qp() by {
                    assert(path@.reverse()[i] == path@[path@.len() - 1 - i]);
                }
            }
            reversed
        } else {
            copy_path(path)
        };
        let ghost oriented_view = oriented@;
        assert(forall|i: int| 0 <= i < path@.len() ==> (#[trigger] oriented_view[i]).qp() == counter_clockwise(
            path@,
        )[i].qp());
        let rotated = canonicalize_ring(oriented);
        proof {
            if path@.len() > 0 {
                let start = choose|start: int| #[trigger] is_rotation(rotated@, oriented_view, start);
                lemma_rotation_respects_copies(rotated@, counter_clockwise(path@), oriented_view, start);
            }
        }
        result.push(rotated);
        index += 1;
    }
    result
}

fn concat_paths(mut first: Vec<Vec<ExactPoint>>, second: Vec<Vec<ExactPoint>>) -> (result: Vec<Vec<ExactPoint>>)
    requires
        paths_wf(first@),
        paths_wf(second@),
    ensures
        paths_wf(result@),
        result@.len() == first@.len() + second@.len(),
        forall|i: int| 0 <= i < first@.len() ==> #[trigger] result@[i] == first@[i],
        forall|i: int| 0 <= i < second@.len() ==> same_path(#[trigger] result@[first@.len() + i]@, second@[i]@),
        rings_canonical(first@) && rings_canonical(second@) ==> rings_canonical(result@),
{
    let ghost original = first@;
    let mut index: usize = 0;
    while index < second.len()
        invariant
            paths_wf(first@),
            paths_wf(second@),
            index <= second@.len(),
            first@.len() == original.len() + index,
            forall|i: int| 0 <= i < original.len() ==> #[trigger] first@[i] == original[i],
            forall|i: int| 0 <= i < index ==> same_path(#[trigger] first@[original.len() + i]@, second@[i]@),
        decreases second@.len() - index,
    {
        proof {
            assert(points_wf(second@[index as int]@));
        }
        first.push(copy_path(&second[index]));
        index += 1;
    }
    proof {
        if rings_canonical(original) && rings_canonical(second@) {
            assert forall|i: int| 0 <= i < first@.len() implies starts_at_smallest(#[trigger] first@[i]@) by {
                if i < original.len() {
                    assert(first@[i] == original[i]);
                } else {
                    let j = i - original.len();
                    assert(same_path(first@[original.len() + j]@, second@[j]@));
                    lemma_same_path_smallest(first@[i]@, second@[j]@);
                }
            }
        }
    }
    first
}

/// Position `i` of `result` holds ring `i` of `paths` turned
/// counter-clockwise and rotated.
pub open spec fn ccw_rings(result: Seq<Vec<ExactPoint>>, paths: Seq<Vec<ExactPoint>>) -> bool {
    result.len() == paths.len() && forall|i: int| 0 <= i < result.len() ==> ccw_rotation_of(
        #[trigger] result[i]@,
        paths[i]@,
    )
}

/// Whether the rings of `result` are those of `paths`, each turned
/// counter-clockwise and rotated, in the order of the permutation `perm`.
pub open spec fn ccw_rings_in_order(result: Seq<Vec<ExactPoint>>, paths: Seq<Vec<ExactPoint>>, perm: Seq<usize>) -> bool {
    &&& perm.len() == paths.len()
    &&& result.len() == paths.len()
    &&& forall|k: int| 0 <= k < perm.len() ==> #[trigger] perm[k] < paths.len()
    &&& distinct_indices(perm)
    &&& forall|k: int| 0 <= k < result.len() ==> ccw_rotation_of(#[trigger] result[k]@, paths[perm[k] as int]@)
}

/// The rings of `paths`, each turned counter-clockwise and rotated, in some
/// order.
pub open spec fn ccw_rings_permuted(result: Seq<Vec<ExactPoint>>, paths: Seq<Vec<ExactPoint>>) -> bool {
    exists|perm: Seq<usize>| #[trigger] ccw_rings_in_order(result, paths, perm)
}

/// Whether two boxes that touch overlap in a segment or a point only: the
/// overlap has no width or no height.
pub open spec fn boxes_meet_flat(a: QBox, b: QBox) -> bool {
    q_same(q_min(a.2, b.2), q_max(a.0, b.0)) || q_same(q_min(a.3, b.3), q_max(a.1, b.1))
}

/// When the cheap cases answer: an even-odd or non-zero fill, and an empty
/// side, or simple disjoint rings on both sides whose boxes are apart, or
/// meet flat without a shared run.
pub open spec fn shortcut_applies(
    subjects: Seq<Vec<ExactPoint>>,
    clips: Seq<Vec<ExactPoint>>,
    clip_type: ClipType,
    fill_rule: FillRule,
) -> bool {
    &&& fill_rule == FillRule::EvenOdd || fill_rule == FillRule::NonZero
    &&& if subjects.len() == 0 && clips.len() == 0 {
        true
    } else if clips.len() == 0 {
        clip_type == ClipType::Intersection || paths_simple_and_disjoint(subjects)
    } else if subjects.len() == 0 {
        clip_type == ClipType::Intersection || clip_type == ClipType::Difference || paths_simple_and_disjoint(clips)
    } else {
        match (paths_qbox(subjects, subjects.len()), paths_qbox(clips, clips.len())) {
            (Some(a), Some(b)) => {
                &&& !qbox_touch(a, b) || (boxes_meet_flat(a, b) && !sets_share_run(subjects, clips))
                &&& paths_simple_and_disjoint(subjects)
                &&& paths_simple_and_disjoint(clips)
            },
            _ => false,
        }
    }
}

/// What the cheap cases return: nothing, or the input rings themselves
/// turned counter-clockwise (in sorted order when both sides contribute).
pub open spec fn shortcut_outcome(
    subjects: Seq<Vec<ExactPoint>>,
    clips: Seq<Vec<ExactPoint>>,
    clip_type: ClipType,
    result: Seq<Vec<ExactPoint>>,
) -> bool {
    (if clips.len() == 0 {
        if clip_type == ClipType::Intersection {
            result.len() == 0
        } else {
            ccw_rings(result, subjects)
        }
    } else if subjects.len() == 0 {
        if clip_type == ClipType::Intersection || clip_type == ClipType::Difference {
            result.len() == 0
        } else {
            ccw_rings(result, clips)
        }
    } else {
        match clip_type {
            ClipType::Intersection => result.len() == 0,
            ClipType::Difference => ccw_rings_permuted(result, subjects),
            _ => ccw_rings_permuted(result, subjects + clips),
        }
    }) && rings_canonical(result) && (subjects.len() > 0 && clips.len() > 0 ==> rings_sorted(result))
}

/// Every ring starts at its smallest point.
pub open spec fn rings_canonical(rings: Seq<Vec<ExactPoint>>) -> bool {
    forall|i: int| 0 <= i < rings.len() ==> starts_at_smallest(#[trigger] rings[i]@)
}

/// The rings are in lexicographic order.
pub open spec fn rings_sorted(rings: Seq<Vec<ExactPoint>>) -> bool {
    forall|k: int| 0 < k < rings.len() ==> path_order(#[trigger] rings[k - 1]@, rings[k]@, 0) <= 0
}

/// A path with the same points as one that starts at its smallest point
/// starts at its smallest point too.
proof fn lemma_same_path_smallest(a: Seq<ExactPoint>, b: Seq<ExactPoint>)
    requires
        same_path(a, b),
        starts_at_smallest(b),
    ensures
        starts_at_smallest(a),
{
    assert forall|k: int| 0 <= k < a.len() implies crate::arrangement::point_order(a[0], #[trigger] a[k]) <= 0 by {
        assert(a[0].qp() == b[0].qp() && a[k].qp() == b[k].qp());
        assert(crate::arrangement::point_order(b[0], b[k]) <= 0);
    }
}

/// Rings rearranged from canonical rings are canonical.
proof fn lemma_permuted_canonical(sorted: Seq<Vec<ExactPoint>>, rings: Seq<Vec<ExactPoint>>)
    requires
        exists|perm: Seq<usize>| #[trigger] permutes(sorted, rings, perm),
        rings_canonical(rings),
    ensures
        rings_canonical(sorted),
{
    let perm = choose|perm: Seq<usize>| #[trigger] permutes(sorted, rings, perm);
    assert forall|i: int| 0 <= i < sorted.len() implies starts_at_smallest(#[trigger] sorted[i]@) by {
        assert(same_path(sorted[i]@, rings[perm[i] as int]@));
        lemma_same_path_smallest(sorted[i]@, rings[perm[i] as int]@);
    }
}

proof fn lemma_sorted_rings(sorted: Seq<Vec<ExactPoint>>, unsorted: Seq<Vec<ExactPoint>>, paths: Seq<Vec<ExactPoint>>)
    requires
        exists|perm: Seq<usize>| #[trigger] permutes(sorted, unsorted, perm),
        ccw_rings(unsorted, paths),
    ensures
        ccw_rings_permuted(sorted, paths),
{
    let perm = choose|perm: Seq<usize>| #[trigger] permutes(sorted, unsorted, perm);
    assert forall|k: int| 0 <= k < sorted.len() implies ccw_rotation_of(#[trigger] sorted[k]@, paths[perm[k] as int]@) by {
        assert(same_path(sorted[k]@, unsorted[perm[k] as int]@));
        assert(ccw_rotation_of(unsorted[perm[k] as int]@, paths[perm[k] as int]@));
        lemma_same_path_rotation(sorted[k]@, unsorted[perm[k] as int]@, paths[perm[k] as int]@);
    }
    assert(ccw_rings_in_order(sorted, paths, perm));
}

fn separated_result(
    subjects: &[Vec<ExactPoint>],
    clips: &[Vec<ExactPoint>],
    clip_type: ClipType,
) -> (result: Option<Vec<Vec<ExactPoint>>>)
    requires
        paths_wf(subjects@),
        paths_wf(clips@),
    ensures
        result matches Some(paths) ==> paths_wf(paths@),
        result is Some <==> paths_simple_and_disjoint(subjects@) && paths_simple_and_disjoint(clips@),
        result matches Some(paths) ==> match clip_type {
            ClipType::Intersection => paths@.len() == 0,
            ClipType::Difference => ccw_rings_permuted(paths@, subjects@),
            _ => ccw_rings_permuted(paths@, subjects@ + clips@),
        },
        result matches Some(paths) ==> rings_canonical(paths@) && rings_sorted(paths@),
{
    if !paths_are_simple_and_disjoint(subjects) || !paths_are_simple_and_disjoint(clips) {
        return None;
    }
    match clip_type {
        ClipType::Intersection => Some(Vec::new()),
        ClipType::Difference => {
            let result = direct_paths(subjects);
            let sorted = sort_paths(result, 0);
            proof {
                lemma_sorted_rings(sorted@, result@, subjects@);
                lemma_permuted_canonical(sorted@, result@);
            }
            Some(sorted)
        },
        _ => {
            let first = direct_paths(subjects);
            let second = direct_paths(clips);
            let result = concat_paths(first, second);
            proof {
                let combined = subjects@ + clips@;
                assert forall|i: int| 0 <= i < result@.len() implies ccw_rotation_of(#[trigger] result@[i]@, combined[i]@) by {
                    if i < first@.len() {
                        assert(result@[i] == first@[i]);
                    } else {
                        let j = i - first@.len();
                        assert(same_path(result@[first@.len() + j]@, second@[j]@));
                        lemma_same_path_rotation(result@[i]@, second@[j]@, clips@[j]@);
                    }
                }
                assert(ccw_rings(result@, combined));
            }
            let sorted = sort_paths(result, 0);
            proof {
                lemma_sorted_rings(sorted@, result@, subjects@ + clips@);
                lemma_permuted_canonical(sorted@, result@);
            }
            Some(sorted)
        },
    }
}

/// Answers the cheap cases without building the arrangement: an empty side,
/// or simple rings whose boxes are apart or meet without a shared run.
pub fn short_circuit(
    subjects: &[Vec<ExactPoint>],
    clips: &[Vec<ExactPoint>],
    clip_type: ClipType,
    fill_rule: FillRule,
) -> (result: Option<Vec<Vec<ExactPoint>>>)
    requires
        paths_wf(subjects@),
        paths_wf(clips@),
    ensures
        result matches Some(paths) ==> paths_wf(paths@),
        (fill_rule == FillRule::Positive || fill_rule == FillRule::Negative) ==> result is None,
        ((fill_rule == FillRule::EvenOdd || fill_rule == FillRule::NonZero) && subjects@.len() == 0 && clips@.len()
            == 0) ==> (result matches Some(paths) && paths@.len() == 0),
        ((fill_rule == FillRule::EvenOdd || fill_rule == FillRule::NonZero) && clip_type == ClipType::Intersection
            && (subjects@.len() == 0 || clips@.len() == 0)) ==> (result matches Some(paths) && paths@.len() == 0),
        ((fill_rule == FillRule::EvenOdd || fill_rule == FillRule::NonZero) && clip_type == ClipType::Difference
            && subjects@.len() == 0) ==> (result matches Some(paths) && paths@.len() == 0),
        result matches Some(paths) ==> shortcut_outcome(subjects@, clips@, clip_type, paths@),
        result is Some <==> shortcut_applies(subjects@, clips@, clip_type, fill_rule),
{
    match fill_rule {
        FillRule::EvenOdd | FillRule::NonZero => {},
        _ => return None,
    }
    if subjects.len() == 0 && clips.len() == 0 {
        return Some(Vec::new());
    }
    if clips.len() == 0 {
        return match clip_type {
            ClipType::Intersection => Some(Vec::new()),
            _ => if paths_are_simple_and_disjoint(subjects) {
                Some(direct_paths(subjects))
            } else {
                None
            },
        };
    }
    if subjects.len() == 0 {
        return match clip_type {
            ClipType::Intersection | ClipType::Difference => Some(Vec::new()),
            _ => if paths_are_simple_and_disjoint(clips) {
                Some(direct_paths(clips))
            } else {
                None
            },
        };
    }
    let subjects_box = match paths_bbox(subjects) {
        Some(bounds) => bounds,
        None => return None,
    };
    let clips_box = match paths_bbox(clips) {
        Some(bounds) => bounds,
        None => return None,
    };
    if !subjects_box.touches(&clips_box) {
        return separated_result(subjects, clips, clip_type);
    }
    let width = subjects_box.max_x.min(&clips_box.max_x).sub(&subjects_box.min_x.max(&clips_box.min_x));
    let height = subjects_box.max_y.min(&clips_box.max_y).sub(&subjects_box.min_y.max(&clips_box.min_y));
    if (width.is_zero() || height.is_zero()) && !sets_have_segment_contact(subjects, clips) {
        return separated_result(subjects, clips, clip_type);
    }
    None
}

} // verus!
