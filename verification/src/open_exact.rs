//! Exact clipping of open polylines against filled closed paths.

use vstd::prelude::*;

use crate::arrangement::{
    Edge, copy_path, path_edges, point_at, q_unit, rationals_wf, sort_unique, split_edge_pair, unit_endpoints,
    value_listed, value_present, qp_point_at, edge_from_path, edge_of_path, path_edge_listed, proper_step,
};
use crate::vertex_origin::{at_open_parameter, line_along_some, line_on_open_path, lines_on_open_paths, on_open_path};
use crate::exact::{ExactPoint, QPoint, edge_count, paths_wf, paths_winding, paths_winding_at, points_wf, qp_same};
use crate::geometry::{Point64, normalize_path64, normalize_spec};
use crate::overlay::edges_wf;
use crate::rational::{Q, Rational};
use crate::request::{ClipType, FillRule};
use crate::rings::{
    convert_path64, edge_of_paths, edge_total_fits, exact_of, lemma_collected_grows, step_collected, steps_collected,
};
use crate::winding::{winding_contains, winding_contains_spec};
use crate::PathKind;

verus! {

/// Which of a boundary run's neighbours decides whether the run is kept.
///
/// A run of fragments lying on a filled boundary follows its neighbours: when
/// only one neighbour exists it decides, when both agree they decide, and when
/// they disagree the neighbour on the higher side (`y_order > 0` when the
/// previous fragment starts above where the next one ends) decides, the next
/// one on a tie. A run with no classified neighbour is dropped.
pub open spec fn boundary_run_keep_spec(previous_keep: Option<bool>, next_keep: Option<bool>, y_order: int) -> bool {
    match (previous_keep, next_keep) {
        (Some(previous), Some(next)) => if previous == next {
            previous
        } else if y_order > 0 {
            previous
        } else {
            next
        },
        (Some(previous), None) => previous,
        (None, Some(next)) => next,
        (None, None) => false,
    }
}

/// Decides whether a run of boundary fragments is kept; see
/// [`boundary_run_keep_spec`]. `y_order` is the sign of the previous
/// fragment's start `y` minus the next fragment's end `y` (zero when either
/// is absent).
pub fn boundary_run_keep(previous_keep: Option<bool>, next_keep: Option<bool>, y_order: i8) -> (keep: bool)
    ensures
        keep == boundary_run_keep_spec(previous_keep, next_keep, y_order as int),
{
    match (previous_keep, next_keep) {
        (Some(previous), Some(next)) => {
            if previous == next {
                previous
            } else if y_order > 0 {
                previous
            } else {
                next
            }
        },
        (Some(previous), None) => previous,
        (None, Some(next)) => next,
        (None, None) => false,
    }
}

/// The open paths of the integer input: each path normalized as an open
/// path, kept when at least two points remain.
pub fn exact_open_paths64(paths: &[Vec<Point64>]) -> (exact: Vec<Vec<ExactPoint>>)
    ensures
        paths_wf(exact@),
        forall|i: int| 0 <= i < exact@.len() ==> (#[trigger] exact@[i])@.len() >= 2,
        forall|i: int| 0 <= i < exact@.len() ==> open_exact_of(paths@, #[trigger] exact@[i]@),
        exact@.len() == open_kept(paths@, paths@.len()).len(),
        forall|i: int|
            0 <= i < exact@.len() ==> exact_of(
                normalize_spec(paths@[open_kept(paths@, paths@.len())[i]]@, PathKind::Open),
                #[trigger] exact@[i]@,
            ),
{
    let mut exact: Vec<Vec<ExactPoint>> = Vec::new();
    let mut index: usize = 0;
    while index < paths.len()
        invariant
            index <= paths@.len(),
            paths_wf(exact@),
            forall|i: int| 0 <= i < exact@.len() ==> (#[trigger] exact@[i])@.len() >= 2,
            forall|i: int| 0 <= i < exact@.len() ==> open_exact_of(paths@, #[trigger] exact@[i]@),
            exact@.len() == open_kept(paths@, index as nat).len(),
            forall|i: int|
                0 <= i < exact@.len() ==> exact_of(
                    normalize_spec(paths@[open_kept(paths@, index as nat)[i]]@, PathKind::Open),
                    #[trigger] exact@[i]@,
                ),
        decreases paths@.len() - index,
    {
        let normalized = normalize_path64(paths[index].as_slice(), PathKind::Open);
        if normalized.len() >= 2 {
            let ghost before = exact@;
            let converted = convert_path64(&normalized);
            proof {
                assert(exact_of(normalize_spec(paths@[index as int]@, PathKind::Open), converted@));
                assert(open_exact_of(paths@, converted@));
            }
            exact.push(converted);
            proof {
                assert forall|i: int| 0 <= i < exact@.len() implies open_exact_of(paths@, #[trigger] exact@[i]@)
                    && exact_of(
                    normalize_spec(paths@[open_kept(paths@, (index + 1) as nat)[i]]@, PathKind::Open),
                    exact@[i]@,
                ) by {
                    if i < before.len() {
                        assert(exact@[i] == before[i]);
                    }
                }
            }
        }
        index += 1;
    }
    exact
}

/// The indices, in order, of the first `n` paths that keep at least two
/// points when normalized as open paths.
pub open spec fn open_kept(paths: Seq<Vec<Point64>>, n: nat) -> Seq<int>
    decreases n,
{
    if n == 0 {
        Seq::empty()
    } else if normalize_spec(paths[n - 1]@, PathKind::Open).len() >= 2 {
        open_kept(paths, (n - 1) as nat).push(n - 1)
    } else {
        open_kept(paths, (n - 1) as nat)
    }
}

/// Whether `exact` holds exactly the points of one of the paths normalized
/// as an open path.
pub open spec fn open_exact_of(paths: Seq<Vec<Point64>>, exact: Seq<ExactPoint>) -> bool {
    exists|p: int| 0 <= p < paths.len() && #[trigger] exact_of(normalize_spec(paths[p]@, PathKind::Open), exact)
}

/// Whether an open fragment with midpoint `point` is kept: inside the clips
/// for an intersection, outside them for a difference or XOR, outside every
/// closed path for a union; `None` when the midpoint lies on a boundary that
/// decides it.
pub open spec fn open_keep_spec(
    point: QPoint,
    closed_subjects: Seq<Vec<ExactPoint>>,
    clips: Seq<Vec<ExactPoint>>,
    clip_type: ClipType,
    fill_rule: FillRule,
) -> Option<bool> {
    match paths_winding(point, clips) {
        None => None,
        Some(clip_winding) => {
            let in_clip = winding_contains_spec(clip_winding, fill_rule);
            match clip_type {
                ClipType::Intersection => Some(in_clip),
                ClipType::Difference | ClipType::Xor => Some(!in_clip),
                ClipType::Union => match paths_winding(point, closed_subjects) {
                    None => None,
                    Some(subject_winding) => Some(!in_clip && !winding_contains_spec(subject_winding, fill_rule)),
                },
            }
        },
    }
}

/// Whether the fragment whose midpoint is `point` is kept, or `None` when the
/// midpoint lies on a filled boundary that decides it.
pub fn open_fragment_keep(
    point: &ExactPoint,
    closed_subjects: &[Vec<ExactPoint>],
    clips: &[Vec<ExactPoint>],
    clip_type: ClipType,
    fill_rule: FillRule,
) -> (keep: Option<bool>)
    requires
        point.wf(),
        paths_wf(closed_subjects@),
        paths_wf(clips@),
        edge_count(closed_subjects@, closed_subjects@.len() as nat) <= i128::MAX,
        edge_count(clips@, clips@.len() as nat) <= i128::MAX,
    ensures
        keep == open_keep_spec(point.qp(), closed_subjects@, clips@, clip_type, fill_rule),
{
    let clip_winding = match paths_winding_at(point, clips) {
        Some(value) => value,
        None => return None,
    };
    let in_clip = winding_contains(clip_winding, fill_rule);
    match clip_type {
        ClipType::Intersection => Some(in_clip),
        ClipType::Difference | ClipType::Xor => Some(!in_clip),
        ClipType::Union => {
            let subject_winding = match paths_winding_at(point, closed_subjects) {
                Some(value) => value,
                None => return None,
            };
            Some(!in_clip && !winding_contains(subject_winding, fill_rule))
        },
    }
}

/// Gives every boundary run (maximal run of `None`) the decision of
/// [`boundary_run_keep`]; classified fragments keep their decision.
pub fn resolve_boundary_keeps(keeps: &mut Vec<Option<bool>>, starts: &Vec<ExactPoint>, ends: &Vec<ExactPoint>)
    requires
        points_wf(starts@),
        points_wf(ends@),
        starts@.len() == old(keeps)@.len(),
        ends@.len() == old(keeps)@.len(),
    ensures
        final(keeps)@.len() == old(keeps)@.len(),
        forall|i: int| 0 <= i < final(keeps)@.len() ==> (#[trigger] final(keeps)@[i]) is Some,
        forall|i: int| 0 <= i < old(keeps)@.len() && old(keeps)@[i] is Some ==> #[trigger] final(keeps)@[i] == old(keeps)@[i],
{
    let len = keeps.len();
    let ghost original = keeps@;
    let mut index: usize = 0;
    while index < len
        invariant
            len == keeps@.len(),
            len == original.len(),
            points_wf(starts@),
            points_wf(ends@),
            starts@.len() == len,
            ends@.len() == len,
            index <= len,
            forall|i: int| 0 <= i < index ==> (#[trigger] keeps@[i]) is Some,
            forall|i: int| 0 <= i < len && original[i] is Some ==> #[trigger] keeps@[i] == original[i],
            forall|i: int| index <= i < len ==> #[trigger] keeps@[i] == original[i],
        decreases len - index,
    {
        if keeps[index].is_some() {
            index += 1;
        } else {
            let start = index;
            while index < len && keeps[index].is_none()
                invariant
                    len == keeps@.len(),
                    len == original.len(),
                    start <= index <= len,
                    forall|i: int| 0 <= i < start ==> (#[trigger] keeps@[i]) is Some,
                    forall|i: int| 0 <= i < len && original[i] is Some ==> #[trigger] keeps@[i] == original[i],
                    forall|i: int| start <= i < len ==> #[trigger] keeps@[i] == original[i],
                    forall|i: int| start <= i < index ==> #[trigger] original[i] is None,
                decreases len - index,
            {
                index += 1;
            }
            let previous_keep = if start == 0 {
                None
            } else {
                keeps[start - 1]
            };
            let next_keep = if index < len {
                keeps[index]
            } else {
                None
            };
            let y_order: i8 = if start > 0 && index < len {
                proof {
                    assert(starts@[start - 1].wf());
                    assert(ends@[index as int].wf());
                }
                starts[start - 1].y.compare(&ends[index].y)
            } else {
                0
            };
            let keep = boundary_run_keep(previous_keep, next_keep, y_order);
            let mut k = start;
            while k < index
                invariant
                    len == keeps@.len(),
                    start <= k <= index <= len,
                    forall|i: int| 0 <= i < start ==> (#[trigger] keeps@[i]) is Some,
                    forall|i: int| start <= i < k ==> (#[trigger] keeps@[i]) is Some,
                    forall|i: int| start <= i < index ==> #[trigger] original[i] is None,
                    forall|i: int| 0 <= i < len && original[i] is Some ==> #[trigger] keeps@[i] == original[i],
                    forall|i: int| k <= i < len ==> #[trigger] keeps@[i] == original[i],
                decreases index - k,
            {
                keeps.set(k, Some(keep));
                k += 1;
            }
        }
    }
}

/// Whether `point` is a fragment's start or end.
pub open spec fn fragment_point(starts: Seq<ExactPoint>, ends: Seq<ExactPoint>, point: QPoint) -> bool {
    exists|k: int| 0 <= k < starts.len() && (#[trigger] starts[k].qp() == point || ends[k].qp() == point)
}

/// The point at a parameter equal to one is the segment's end.
proof fn lemma_point_at_one(start: QPoint, end: QPoint, t: Q)
    requires
        start.0.1 > 0,
        start.1.1 > 0,
        end.0.1 > 0,
        end.1.1 > 0,
        t.1 > 0,
        t.0 == t.1,
    ensures
        qp_same(qp_point_at(start, end, t), end),
{
    lemma_coordinate_at_one(start.0.0, start.0.1, end.0.0, end.0.1, t.1);
    lemma_coordinate_at_one(start.1.0, start.1.1, end.1.0, end.1.1, t.1);
}

/// The point at a parameter equal to zero is the segment's start.
proof fn lemma_point_at_zero(start: QPoint, end: QPoint, t: Q)
    requires
        start.0.1 > 0,
        start.1.1 > 0,
        t.0 == 0,
    ensures
        qp_same(qp_point_at(start, end, t), start),
{
    lemma_coordinate_at_zero(start.0.0, start.0.1, end.0.0, end.0.1, t.1);
    lemma_coordinate_at_zero(start.1.0, start.1.1, end.1.0, end.1.1, t.1);
}

proof fn lemma_coordinate_at_zero(sn: int, sd: int, en: int, ed: int, m: int)
    ensures
        ({
            let v = (en * sd - sn * ed, ed * sd);
            let moved = (v.0 * 0, v.1 * m);
            (sn * moved.1 + moved.0 * sd) * sd == sn * (sd * moved.1)
        }),
{
    let vn = en * sd - sn * ed;
    let vd = ed * sd;
    assert((sn * (vd * m) + (vn * 0) * sd) * sd == sn * (sd * (vd * m))) by (nonlinear_arith);
}

/// In strictly rising parameters of `[0, 1]` that hold zero and one, the
/// first is zero and the last is one.
proof fn lemma_unit_ends(values: Seq<Rational>, zero: Rational, one: Rational)
    requires
        rationals_wf(values),
        forall|k: int| 0 < k < values.len() ==> (#[trigger] values[k - 1]).less(values[k]),
        forall|j: int| 0 <= j < values.len() ==> q_unit((#[trigger] values[j]).q()),
        zero.q() == (0int, 1int),
        one.q() == (1int, 1int),
        value_present(values, zero),
        value_present(values, one),
    ensures
        values.len() >= 2,
        values[0].num() == 0,
        values.last().num() == values.last().den(),
{
    let c = choose|c: int| 0 <= c < values.len() && (#[trigger] values[c]).same(zero);
    let a = choose|a: int| 0 <= a < values.len() && (#[trigger] values[a]).same(one);
    assert(values[c].wf() && values[a].wf() && values[0].wf());
    let last = values.len() - 1;
    assert(values[last].wf());
    assert(values[c].num() == 0);
    assert(values[a].num() == values[a].den());
    assert(a != c);
    if c > 0 {
        crate::arrangement::lemma_rising_values(values, 0, c);
        assert(q_unit(values[0].q()));
        let (n0, d0, dc) = (values[0].num(), values[0].den(), values[c].den());
        assert(false) by (nonlinear_arith)
            requires
                n0 * dc < 0 * d0,
                0 <= n0,
                dc > 0,
        ;
    }
    if a < last {
        crate::arrangement::lemma_rising_values(values, a, last);
        assert(q_unit(values[last].q()));
        let (an, ad, ln, ld) = (values[a].num(), values[a].den(), values[last].num(), values[last].den());
        assert(false) by (nonlinear_arith)
            requires
                an == ad,
                ad > 0,
                ld > 0,
                an * ld < ln * ad,
                ln <= ld,
        ;
    }
}

proof fn lemma_coordinate_at_one(sn: int, sd: int, en: int, ed: int, m: int)
    ensures
        ({
            let v = (en * sd - sn * ed, ed * sd);
            let moved = (v.0 * m, v.1 * m);
            (sn * moved.1 + moved.0 * sd) * ed == en * (sd * moved.1)
        }),
{
    let vn = en * sd - sn * ed;
    let vd = ed * sd;
    assert(sn * (vd * m) == sn * ed * sd * m) by (nonlinear_arith)
        requires
            vd == ed * sd,
    ;
    assert((vn * m) * sd == en * sd * m * sd - sn * ed * m * sd) by (nonlinear_arith)
        requires
            vn == en * sd - sn * ed,
    ;
    assert(sn * ed * sd * m == sn * ed * m * sd && en * sd * m * sd == m * (en * sd * sd)) by (nonlinear_arith);
    assert(m * (en * sd * sd) * ed == en * (sd * (vd * m))) by (nonlinear_arith)
        requires
            vd == ed * sd,
    ;
}

/// Nothing is inside an empty set of paths.
proof fn lemma_empty_keep(point: QPoint, closed_subjects: Seq<Vec<ExactPoint>>, clips: Seq<Vec<ExactPoint>>, clip_type: ClipType, fill_rule: FillRule)
    requires
        closed_subjects.len() == 0,
        clips.len() == 0,
        clip_type != ClipType::Intersection,
    ensures
        open_keep_spec(point, closed_subjects, clips, clip_type, fill_rule) == Some(true),
{
    assert(paths_winding(point, clips) == Some(0int));
    assert(paths_winding(point, closed_subjects) == Some(0int));
    assert(!winding_contains_spec(0, fill_rule)) by {
        assert(0int % 2 == 0);
    }
}

/// Some kept fragment ends at a point equal in value to `point`.
spec fn kept_end_near(ends: Seq<ExactPoint>, keeps: Seq<Option<bool>>, point: QPoint) -> bool {
    exists|f: int| 0 <= f < keeps.len() && f < ends.len() && keeps[f] == Some(true) && #[trigger] qp_same(ends[f].qp(), point)
}

/// Some point of some line equals `point` in value.
pub open spec fn line_reaches(lines: Seq<Vec<ExactPoint>>, point: QPoint) -> bool {
    exists|i: int, j: int| 0 <= i < lines.len() && 0 <= j < lines[i]@.len() && #[trigger] qp_same(lines[i]@[j].qp(), point)
}

proof fn lemma_kept_end_grows(
    ends: Seq<ExactPoint>,
    keeps: Seq<Option<bool>>,
    ends2: Seq<ExactPoint>,
    keeps2: Seq<Option<bool>>,
    point: QPoint,
)
    requires
        keeps.len() <= keeps2.len(),
        ends.len() <= ends2.len(),
        forall|f: int| 0 <= f < keeps.len() ==> #[trigger] keeps2[f] == keeps[f],
        forall|f: int| 0 <= f < ends.len() ==> #[trigger] ends2[f] == ends[f],
        kept_end_near(ends, keeps, point),
    ensures
        kept_end_near(ends2, keeps2, point),
{
    let f = choose|f: int| 0 <= f < keeps.len() && f < ends.len() && keeps[f] == Some(true) && #[trigger] qp_same(ends[f].qp(), point);
    assert(keeps2[f] == keeps[f] && ends2[f] == ends[f]);
}

proof fn lemma_line_reaches_grows(lines: Seq<Vec<ExactPoint>>, lines2: Seq<Vec<ExactPoint>>, point: QPoint)
    requires
        lines.len() <= lines2.len(),
        forall|i: int| 0 <= i < lines.len() ==> #[trigger] lines2[i] == lines[i],
        line_reaches(lines, point),
    ensures
        line_reaches(lines2, point),
{
    let (i, j) = choose|i: int, j: int| 0 <= i < lines.len() && 0 <= j < lines[i]@.len() && #[trigger] qp_same(lines[i]@[j].qp(), point);
    assert(lines2[i] == lines[i]);
}

/// Some point of the line equals `point`.
pub open spec fn line_has(line: Seq<ExactPoint>, point: QPoint) -> bool {
    exists|j: int| 0 <= j < line.len() && #[trigger] line[j].qp() == point
}

/// Some line from position `from` on holds a point equal to `point`.
pub open spec fn point_emitted(lines: Seq<Vec<ExactPoint>>, from: int, point: QPoint) -> bool {
    exists|i: int| from <= i < lines.len() && line_has(#[trigger] lines[i]@, point)
}

proof fn lemma_line_has_prefix(before: Seq<ExactPoint>, after: Seq<ExactPoint>, point: QPoint)
    requires
        before.len() <= after.len(),
        forall|j: int| 0 <= j < before.len() ==> #[trigger] after[j] == before[j],
        line_has(before, point),
    ensures
        line_has(after, point),
{
    let j = choose|j: int| 0 <= j < before.len() && #[trigger] before[j].qp() == point;
    assert(after[j] == before[j]);
}

proof fn lemma_emitted_prefix(before: Seq<Vec<ExactPoint>>, after: Seq<Vec<ExactPoint>>, from: int, point: QPoint)
    requires
        0 <= from,
        before.len() <= after.len(),
        forall|i: int| 0 <= i < before.len() ==> #[trigger] after[i] == before[i],
        point_emitted(before, from, point),
    ensures
        point_emitted(after, from, point),
{
    let i = choose|i: int| from <= i < before.len() && line_has(#[trigger] before[i]@, point);
    assert(after[i] == before[i]);
}

/// Whether every fragment's start and end lie on the open paths.
pub open spec fn fragments_on_open(path: Seq<ExactPoint>, starts: Seq<ExactPoint>, ends: Seq<ExactPoint>) -> bool {
    &&& starts.len() == ends.len()
    &&& forall|i: int|
        0 <= i < starts.len() ==> on_open_path(path, (#[trigger] starts[i]).qp()) && on_open_path(path, ends[i].qp())
}

/// A fragment's start or end, when all of them lie on the open paths, lies
/// on the open paths.
proof fn lemma_fragment_on_open_path(
    starts: Seq<ExactPoint>,
    ends: Seq<ExactPoint>,
    path: Seq<ExactPoint>,
    point: QPoint,
)
    requires
        fragment_point(starts, ends, point),
        fragments_on_open(path, starts, ends),
    ensures
        on_open_path(path, point),
{
    let k = choose|k: int| 0 <= k < starts.len() && (#[trigger] starts[k].qp() == point || ends[k].qp() == point);
    assert(on_open_path(path, starts[k].qp()) && on_open_path(path, ends[k].qp()));
}

/// The points of a polyline as rational pairs.
pub open spec fn line_qps(line: Seq<ExactPoint>) -> Seq<QPoint> {
    line.map_values(|point: ExactPoint| point.qp())
}

/// The points of each polyline as rational pairs.
pub open spec fn lines_qps(lines: Seq<Vec<ExactPoint>>) -> Seq<Seq<QPoint>> {
    lines.map_values(|line: Vec<ExactPoint>| line_qps(line@))
}

/// The runs of kept fragments among the first `n` fragments, and the run
/// still open after them: a kept fragment opens a run with its start and
/// end, or extends the open run by its end; any other fragment closes the
/// open run, which is emitted when it holds two points or more.
pub open spec fn fragment_runs(
    keeps: Seq<Option<bool>>,
    starts: Seq<ExactPoint>,
    ends: Seq<ExactPoint>,
    n: nat,
) -> (Seq<Seq<QPoint>>, Seq<QPoint>)
    decreases n,
{
    if n == 0 {
        (Seq::empty(), Seq::empty())
    } else {
        let (lines, current) = fragment_runs(keeps, starts, ends, (n - 1) as nat);
        let k = n - 1;
        if keeps[k] == Some(true) {
            (lines, if current.len() == 0 {
                seq![starts[k].qp(), ends[k].qp()]
            } else {
                current.push(ends[k].qp())
            })
        } else if current.len() >= 2 {
            (lines.push(current), Seq::empty())
        } else {
            (lines, Seq::empty())
        }
    }
}

/// The maximal runs of kept fragments as polylines, in order.
pub open spec fn kept_runs(keeps: Seq<Option<bool>>, starts: Seq<ExactPoint>, ends: Seq<ExactPoint>) -> Seq<Seq<QPoint>> {
    let (lines, current) = fragment_runs(keeps, starts, ends, keeps.len());
    if current.len() >= 2 {
        lines.push(current)
    } else {
        lines
    }
}

/// Appends the maximal runs of kept fragments, as polylines of at least two
/// points, to `output`.
pub fn append_open_fragments(
    keeps: &Vec<Option<bool>>,
    starts: &Vec<ExactPoint>,
    ends: &Vec<ExactPoint>,
    output: &mut Vec<Vec<ExactPoint>>,
)
    requires
        points_wf(starts@),
        points_wf(ends@),
        starts@.len() == keeps@.len(),
        ends@.len() == keeps@.len(),
        paths_wf(old(output)@),
        forall|i: int| 0 <= i < old(output)@.len() ==> (#[trigger] old(output)@[i])@.len() >= 2,
    ensures
        paths_wf(final(output)@),
        forall|i: int| 0 <= i < final(output)@.len() ==> (#[trigger] final(output)@[i])@.len() >= 2,
        final(output)@.len() >= old(output)@.len(),
        forall|i: int| 0 <= i < old(output)@.len() ==> #[trigger] final(output)@[i] == old(output)@[i],
        forall|i: int, j: int|
            old(output)@.len() <= i < final(output)@.len() && 0 <= j < final(output)@[i]@.len() ==> fragment_point(
                starts@,
                ends@,
                #[trigger] final(output)@[i]@[j].qp(),
            ),
        forall|k: int|
            0 <= k < keeps@.len() && #[trigger] keeps@[k] == Some(true) ==> point_emitted(
                final(output)@,
                old(output)@.len() as int,
                ends@[k].qp(),
            ),
        lines_qps(final(output)@) == lines_qps(old(output)@) + kept_runs(keeps@, starts@, ends@),
{
    let ghost initial = output@;
    let mut current: Vec<ExactPoint> = Vec::new();
    let mut index: usize = 0;
    proof {
        assert(lines_qps(output@) =~= lines_qps(initial) + Seq::<Seq<QPoint>>::empty());
        assert(line_qps(current@) =~= Seq::<QPoint>::empty());
    }
    while index < keeps.len()
        invariant
            lines_qps(output@) == lines_qps(initial) + fragment_runs(keeps@, starts@, ends@, index as nat).0,
            line_qps(current@) == fragment_runs(keeps@, starts@, ends@, index as nat).1,
            points_wf(starts@),
            points_wf(ends@),
            starts@.len() == keeps@.len(),
            ends@.len() == keeps@.len(),
            paths_wf(output@),
            forall|i: int| 0 <= i < output@.len() ==> (#[trigger] output@[i])@.len() >= 2,
            points_wf(current@),
            index <= keeps@.len(),
            output@.len() >= initial.len(),
            forall|i: int| 0 <= i < initial.len() ==> #[trigger] output@[i] == initial[i],
            forall|i: int, j: int|
                initial.len() <= i < output@.len() && 0 <= j < output@[i]@.len() ==> fragment_point(
                    starts@,
                    ends@,
                    #[trigger] output@[i]@[j].qp(),
                ),
            forall|j: int| 0 <= j < current@.len() ==> fragment_point(starts@, ends@, #[trigger] current@[j].qp()),
            current@.len() == 0 || current@.len() >= 2,
            forall|k: int|
                0 <= k < index && #[trigger] keeps@[k] == Some(true) ==> point_emitted(
                    output@,
                    initial.len() as int,
                    ends@[k].qp(),
                ) || line_has(current@, ends@[k].qp()),
        decreases keeps@.len() - index,
    {
        proof {
            assert(starts@[index as int].wf());
            assert(ends@[index as int].wf());
        }
        match keeps[index] {
            Some(true) => {
                let ghost before = current@;
                if current.len() == 0 {
                    current.push(starts[index].copy());
                }
                let ghost middle = current@;
                current.push(ends[index].copy());
                proof {
                    if before.len() == 0 {
                        assert(line_qps(current@) =~= seq![starts@[index as int].qp(), ends@[index as int].qp()]);
                    } else {
                        assert(line_qps(current@) =~= line_qps(before).push(ends@[index as int].qp()));
                    }
                    assert(fragment_point(starts@, ends@, starts@[index as int].qp()));
                    assert(fragment_point(starts@, ends@, ends@[index as int].qp()));
                    assert forall|j: int| 0 <= j < current@.len() implies fragment_point(
                        starts@,
                        ends@,
                        #[trigger] current@[j].qp(),
                    ) by {
                        if j < before.len() {
                            assert(current@[j] == before[j]);
                        } else if j < middle.len() {
                            assert(current@[j] == middle[j]);
                        }
                    }
                    assert forall|k: int|
                        0 <= k < index + 1 && #[trigger] keeps@[k] == Some(true) implies point_emitted(
                            output@,
                            initial.len() as int,
                            ends@[k].qp(),
                        ) || line_has(current@, ends@[k].qp()) by {
                        if k < index {
                            if line_has(before, ends@[k].qp()) {
                                lemma_line_has_prefix(before, current@, ends@[k].qp());
                            }
                        } else {
                            assert(current@[current@.len() - 1].qp() == ends@[k].qp());
                        }
                    }
                }
            },
            _ => {
                if current.len() >= 2 {
                    let ghost before = output@;
                    let ghost pushed = current;
                    output.push(current);
                    proof {
                        assert(lines_qps(output@) =~= lines_qps(before).push(line_qps(pushed@)));
                        assert(lines_qps(initial) + fragment_runs(keeps@, starts@, ends@, (index + 1) as nat).0 =~= (
                        lines_qps(initial) + fragment_runs(keeps@, starts@, ends@, index as nat).0).push(line_qps(
                            pushed@,
                        )));
                        assert forall|i: int, j: int|
                            initial.len() <= i < output@.len() && 0 <= j < output@[i]@.len() implies fragment_point(
                            starts@,
                            ends@,
                            #[trigger] output@[i]@[j].qp(),
                        ) by {
                            if i < before.len() {
                                assert(output@[i] == before[i]);
                            }
                        }
                        assert forall|k: int|
                            0 <= k < index && #[trigger] keeps@[k] == Some(true) implies point_emitted(
                                output@,
                                initial.len() as int,
                                ends@[k].qp(),
                            ) by {
                            if point_emitted(before, initial.len() as int, ends@[k].qp()) {
                                lemma_emitted_prefix(before, output@, initial.len() as int, ends@[k].qp());
                            } else {
                                assert(output@[before.len() as int] == pushed);
                                assert(line_has(output@[before.len() as int]@, ends@[k].qp()));
                            }
                        }
                    }
                }
                current = Vec::new();
                proof {
                    assert(line_qps(current@) =~= Seq::<QPoint>::empty());
                }
            },
        }
        index += 1;
    }
    if current.len() >= 2 {
        let ghost before = output@;
        let ghost pushed = current;
        output.push(current);
        proof {
            assert(lines_qps(output@) =~= lines_qps(before).push(line_qps(pushed@)));
            assert(lines_qps(initial) + kept_runs(keeps@, starts@, ends@) =~= (lines_qps(initial) + fragment_runs(
                keeps@,
                starts@,
                ends@,
                keeps@.len(),
            ).0).push(line_qps(pushed@)));
            assert forall|i: int, j: int|
                initial.len() <= i < output@.len() && 0 <= j < output@[i]@.len() implies fragment_point(
                starts@,
                ends@,
                #[trigger] output@[i]@[j].qp(),
            ) by {
                if i < before.len() {
                    assert(output@[i] == before[i]);
                }
            }
            assert forall|k: int|
                0 <= k < keeps@.len() && #[trigger] keeps@[k] == Some(true) implies point_emitted(
                    output@,
                    initial.len() as int,
                    ends@[k].qp(),
                ) by {
                if point_emitted(before, initial.len() as int, ends@[k].qp()) {
                    lemma_emitted_prefix(before, output@, initial.len() as int, ends@[k].qp());
                } else {
                    assert(output@[before.len() as int] == pushed);
                    assert(line_has(output@[before.len() as int]@, ends@[k].qp()));
                }
            }
        }
    }
}

/// The fragments of one open path: each starts and ends on the path,
/// carries a decision, and follows the operation's rule at its midpoint
/// wherever that rule decides.
pub open spec fn exact_fragments_decided(
    keeps: Seq<Option<bool>>,
    starts: Seq<ExactPoint>,
    ends: Seq<ExactPoint>,
    path: Seq<ExactPoint>,
    closed_subjects: Seq<Vec<ExactPoint>>,
    clips: Seq<Vec<ExactPoint>>,
    clip_type: ClipType,
    fill_rule: FillRule,
) -> bool {
    &&& starts.len() == keeps.len()
    &&& ends.len() == keeps.len()
    &&& fragments_on_open(path, starts, ends)
    &&& forall|k: int|
        0 <= k < keeps.len() ==> (#[trigger] keeps[k]) is Some && (open_keep_spec(
            qp_point_at(starts[k].qp(), ends[k].qp(), (1int, 2int)),
            closed_subjects,
            clips,
            clip_type,
            fill_rule,
        ) matches Some(keep) ==> keeps[k] == Some(keep))
}

/// Each fragment's decision, before boundary runs are resolved, is the rule
/// at its midpoint.
spec fn exact_fragments_classified(
    keeps: Seq<Option<bool>>,
    starts: Seq<ExactPoint>,
    ends: Seq<ExactPoint>,
    closed_subjects: Seq<Vec<ExactPoint>>,
    clips: Seq<Vec<ExactPoint>>,
    clip_type: ClipType,
    fill_rule: FillRule,
) -> bool {
    forall|k: int|
        0 <= k < keeps.len() ==> #[trigger] keeps[k] == open_keep_spec(
            qp_point_at(starts[k].qp(), ends[k].qp(), (1int, 2int)),
            closed_subjects,
            clips,
            clip_type,
            fill_rule,
        )
}

/// Both points lie on one segment of the open path.
pub open spec fn exact_in_segment(path: Seq<ExactPoint>, start: QPoint, end: QPoint) -> bool {
    exists|m: int, t: Q, u: Q| #[trigger] at_open_parameter(path, m, t, start) && #[trigger] at_open_parameter(path, m, u, end)
}

/// The fragments run in order along the open path: the first starts at its
/// first point and the last ends at its last point, each starts where the
/// one before ends, each lies within one segment. There are none only when
/// every point of the path is its first point.
pub open spec fn exact_fragments_cover(starts: Seq<ExactPoint>, ends: Seq<ExactPoint>, path: Seq<ExactPoint>) -> bool {
    &&& starts.len() == ends.len()
    &&& starts.len() == 0 ==> forall|v: int| 0 <= v < path.len() ==> qp_same((#[trigger] path[v]).qp(), path[0].qp())
    &&& starts.len() > 0 ==> qp_same(starts[0].qp(), path[0].qp()) && qp_same(ends.last().qp(), path.last().qp())
    &&& forall|k: int| 0 < k < starts.len() ==> qp_same((#[trigger] starts[k]).qp(), ends[k - 1].qp())
    &&& forall|k: int| 0 <= k < starts.len() ==> exact_in_segment(path, (#[trigger] starts[k]).qp(), ends[k].qp())
}

/// The fragments so far start at the path's first point, chain, and each
/// lies within one segment.
spec fn exact_fragments_chain(starts: Seq<ExactPoint>, ends: Seq<ExactPoint>, path: Seq<ExactPoint>) -> bool {
    &&& starts.len() > 0 ==> qp_same(starts[0].qp(), path[0].qp())
    &&& forall|k: int| 0 < k < starts.len() ==> qp_same((#[trigger] starts[k]).qp(), ends[k - 1].qp())
    &&& forall|k: int| 0 <= k < starts.len() ==> exact_in_segment(path, (#[trigger] starts[k]).qp(), ends[k].qp())
}

/// Appending a fragment of segment `m` that starts where the fragments so
/// far end, or at the path's first point, keeps them chained.
proof fn lemma_chain_push(
    old_starts: Seq<ExactPoint>,
    old_ends: Seq<ExactPoint>,
    starts: Seq<ExactPoint>,
    ends: Seq<ExactPoint>,
    path: Seq<ExactPoint>,
    m: int,
    t: Q,
    u: Q,
)
    requires
        old_starts.len() == old_ends.len(),
        starts.len() == old_starts.len() + 1,
        ends.len() == starts.len(),
        forall|f: int| 0 <= f < old_starts.len() ==> #[trigger] starts[f] == old_starts[f],
        forall|f: int| 0 <= f < old_ends.len() ==> #[trigger] ends[f] == old_ends[f],
        exact_fragments_chain(old_starts, old_ends, path),
        at_open_parameter(path, m, t, starts.last().qp()),
        at_open_parameter(path, m, u, ends.last().qp()),
        old_starts.len() > 0 ==> qp_same(starts.last().qp(), old_ends.last().qp()),
        old_starts.len() == 0 ==> qp_same(starts.last().qp(), path[0].qp()),
    ensures
        exact_fragments_chain(starts, ends, path),
{
    let n = old_starts.len() as int;
    assert(starts[n] == starts.last() && ends[n] == ends.last());
    assert(exact_in_segment(path, starts.last().qp(), ends.last().qp()));
    assert forall|k: int| 0 <= k < starts.len() implies exact_in_segment(path, (#[trigger] starts[k]).qp(), ends[k].qp())
        && (k > 0 ==> qp_same(starts[k].qp(), ends[k - 1].qp())) by {
        if k < n {
            assert(starts[k] == old_starts[k] && ends[k] == old_ends[k]);
            if k > 0 {
                assert(ends[k - 1] == old_ends[k - 1]);
            }
        } else if k > 0 {
            assert(ends[k - 1] == old_ends[k - 1]);
        }
    }
    if n > 0 {
        assert(starts[0] == old_starts[0]);
    }
}

/// The kept runs of each path's fragments, path after path.
pub open spec fn exact_runs_of_paths(
    pieces: Seq<(Seq<Option<bool>>, Seq<ExactPoint>, Seq<ExactPoint>)>,
) -> Seq<Seq<QPoint>>
    decreases pieces.len(),
{
    if pieces.len() == 0 {
        Seq::empty()
    } else {
        exact_runs_of_paths(pieces.drop_last()) + kept_runs(pieces.last().0, pieces.last().1, pieces.last().2)
    }
}

/// The clipped lines are, path after path, the maximal runs of kept
/// fragments of each open path, every fragment decided by the rule.
pub open spec fn open_clip_exact_result(
    lines: Seq<Seq<QPoint>>,
    open_paths: Seq<Vec<ExactPoint>>,
    closed_subjects: Seq<Vec<ExactPoint>>,
    clips: Seq<Vec<ExactPoint>>,
    clip_type: ClipType,
    fill_rule: FillRule,
) -> bool {
    exists|pieces: Seq<(Seq<Option<bool>>, Seq<ExactPoint>, Seq<ExactPoint>)>|
        #[trigger] exact_runs_of_paths(pieces) == lines && pieces.len() == open_paths.len() && forall|p: int|
            0 <= p < pieces.len() ==> exact_fragments_decided(
                (#[trigger] pieces[p]).0,
                pieces[p].1,
                pieces[p].2,
                open_paths[p]@,
                closed_subjects,
                clips,
                clip_type,
                fill_rule,
            ) && exact_fragments_cover(pieces[p].1, pieces[p].2, open_paths[p]@)
}

/// Clips open polylines exactly: each segment is split where it meets a
/// filled boundary (clips, and for a union also the closed subjects), each
/// piece is classified at its midpoint, boundary runs follow their
/// neighbours, and the kept runs become the output polylines.
#[verifier::spinoff_prover]
#[verifier::rlimit(50)]
pub fn clip_open_paths(
    open_paths: &[Vec<ExactPoint>],
    closed_subjects: &[Vec<ExactPoint>],
    clips: &[Vec<ExactPoint>],
    clip_type: ClipType,
    fill_rule: FillRule,
) -> (output: Vec<Vec<ExactPoint>>)
    requires
        paths_wf(open_paths@),
        paths_wf(closed_subjects@),
        paths_wf(clips@),
    ensures
        paths_wf(output@),
        forall|i: int| 0 <= i < output@.len() ==> (#[trigger] output@[i])@.len() >= 2,
        lines_on_open_paths(output@, open_paths@),
        closed_subjects@.len() == 0 && clips@.len() == 0 && clip_type != ClipType::Intersection ==> forall|p: int, w: int|
            0 <= p < open_paths@.len() && 1 <= w < open_paths@[p]@.len() && !qp_same(
                open_paths@[p]@[w - 1].qp(),
                (#[trigger] open_paths@[p]@[w]).qp(),
            ) ==> line_reaches(output@, open_paths@[p]@[w].qp()),
        (edge_count(closed_subjects@, closed_subjects@.len() as nat) <= u64::MAX && edge_count(
            clips@,
            clips@.len() as nat,
        ) <= u64::MAX) ==> open_clip_exact_result(
            lines_qps(output@),
            open_paths@,
            closed_subjects@,
            clips@,
            clip_type,
            fill_rule,
        ),
{
    let mut output: Vec<Vec<ExactPoint>> = Vec::new();
    if !edge_total_fits(closed_subjects) || !edge_total_fits(clips) {
        return output;
    }
    let mut boundary: Vec<Edge> = Vec::new();
    let union = match clip_type {
        ClipType::Union => true,
        _ => false,
    };
    if union {
        append_edges(closed_subjects, &mut boundary);
    }
    append_edges(clips, &mut boundary);
    let mut p: usize = 0;
    let ghost mut pieces: Seq<(Seq<Option<bool>>, Seq<ExactPoint>, Seq<ExactPoint>)> = Seq::empty();
    proof {
        assert(lines_qps(output@) =~= Seq::<Seq<QPoint>>::empty());
    }
    while p < open_paths.len()
        invariant
            pieces.len() == p,
            exact_runs_of_paths(pieces) == lines_qps(output@),
            forall|q: int|
                0 <= q < pieces.len() ==> exact_fragments_decided(
                    (#[trigger] pieces[q]).0,
                    pieces[q].1,
                    pieces[q].2,
                    open_paths@[q]@,
                    closed_subjects@,
                    clips@,
                    clip_type,
                    fill_rule,
                ) && exact_fragments_cover(pieces[q].1, pieces[q].2, open_paths@[q]@),
            paths_wf(open_paths@),
            paths_wf(closed_subjects@),
            paths_wf(clips@),
            edge_count(closed_subjects@, closed_subjects@.len() as nat) <= i128::MAX,
            edge_count(clips@, clips@.len() as nat) <= i128::MAX,
            edges_wf(boundary@),
            paths_wf(output@),
            forall|i: int| 0 <= i < output@.len() ==> (#[trigger] output@[i])@.len() >= 2,
            p <= open_paths@.len(),
            lines_on_open_paths(output@, open_paths@),
            closed_subjects@.len() == 0 && clips@.len() == 0 && clip_type != ClipType::Intersection ==> forall|q: int, w: int|
                0 <= q < p && 1 <= w < open_paths@[q]@.len() && !qp_same(
                    open_paths@[q]@[w - 1].qp(),
                    (#[trigger] open_paths@[q]@[w]).qp(),
                ) ==> line_reaches(output@, open_paths@[q]@[w].qp()),
        decreases open_paths@.len() - p,
    {
        let path = &open_paths[p];
        proof {
            assert(points_wf(open_paths@[p as int]@));
        }
        let mut keeps: Vec<Option<bool>> = Vec::new();
        let mut starts: Vec<ExactPoint> = Vec::new();
        let mut ends: Vec<ExactPoint> = Vec::new();
        let mut w: usize = 1;
        while w < path.len()
            invariant
                points_wf(path@),
                paths_wf(closed_subjects@),
                paths_wf(clips@),
                edge_count(closed_subjects@, closed_subjects@.len() as nat) <= i128::MAX,
                edge_count(clips@, clips@.len() as nat) <= i128::MAX,
                edges_wf(boundary@),
                points_wf(starts@),
                points_wf(ends@),
                starts@.len() == keeps@.len(),
                ends@.len() == keeps@.len(),
                1 <= w,
                p < open_paths@.len(),
                path@ == open_paths@[p as int]@,
                fragments_on_open(open_paths@[p as int]@, starts@, ends@),
                exact_fragments_classified(keeps@, starts@, ends@, closed_subjects@, clips@, clip_type, fill_rule),
                path@.len() > 0 ==> w <= path@.len(),
                exact_fragments_chain(starts@, ends@, path@),
                starts@.len() == 0 ==> forall|v: int|
                    0 <= v < w && v < path@.len() ==> qp_same((#[trigger] path@[v]).qp(), path@[0].qp()),
                starts@.len() > 0 ==> qp_same(ends@.last().qp(), path@[w - 1].qp()),
                closed_subjects@.len() == 0 && clips@.len() == 0 && clip_type != ClipType::Intersection ==> forall|v: int|
                    1 <= v < w && !qp_same(path@[v - 1].qp(), (#[trigger] path@[v]).qp()) ==> kept_end_near(
                        ends@,
                        keeps@,
                        path@[v].qp(),
                    ),
            decreases path@.len() - w,
        {
            proof {
                assert(path@[w - 1].wf());
                assert(path@[w as int].wf());
            }
            if !path[w - 1].equals(&path[w]) {
                let edge = Edge::new(path[w - 1].copy(), path[w].copy());
                let mut parameters = unit_endpoints();
                let mut b: usize = 0;
                while b < boundary.len()
                    invariant
                        edge.wf(),
                        edge.proper(),
                        edges_wf(boundary@),
                        rationals_wf(parameters@),
                        b <= boundary@.len(),
                        forall|j: int| 0 <= j < parameters@.len() ==> q_unit((#[trigger] parameters@[j]).q()),
                        starts@.len() == keeps@.len(),
                        ends@.len() == keeps@.len(),
                        fragments_on_open(open_paths@[p as int]@, starts@, ends@),
                        parameters@.len() >= 2,
                        parameters@[0].q() == (0int, 1int),
                        parameters@[1].q() == (1int, 1int),
                    decreases boundary@.len() - b,
                {
                    proof {
                        assert(boundary@[b as int].wf());
                    }
                    let mut ignored = unit_endpoints();
                    let ghost before = parameters@;
                    split_edge_pair(&edge, &boundary[b], &mut parameters, &mut ignored);
                    proof {
                        assert forall|j: int| 0 <= j < parameters@.len() implies q_unit((#[trigger] parameters@[j]).q()) by {
                            if j < before.len() {
                                assert(parameters@[j] == before[j]);
                            }
                        }
                    }
                    b += 1;
                }
                let values = sort_unique(&parameters);
                let ghost base_keeps = keeps@;
                let ghost base_ends = ends@;
                let ghost base_starts = starts@;
                proof {
                    assert forall|j: int| 0 <= j < values@.len() implies q_unit((#[trigger] values@[j]).q()) by {
                        assert(value_listed(parameters@, values@[j]));
                        let i = choose|i: int| 0 <= i < parameters@.len() && (#[trigger] parameters@[i]).q() == values@[j].q();
                        assert(q_unit(parameters@[i].q()));
                    }
                    assert(value_present(values@, parameters@[0]));
                    assert(value_present(values@, parameters@[1]));
                    lemma_unit_ends(values@, parameters@[0], parameters@[1]);
                    if base_keeps.len() == 0 {
                        assert(qp_same(path@[w - 1].qp(), path@[0].qp()));
                    }
                }
                let half = Rational::half();
                let mut k: usize = 1;
                while k < values.len()
                    invariant
                        values@.len() >= 2,
                        values@[0].num() == 0,
                        values@.last().num() == values@.last().den(),
                        forall|f: int| 0 <= f < base_starts.len() ==> #[trigger] starts@[f] == base_starts[f],
                        base_starts.len() == base_keeps.len(),
                        exact_fragments_chain(starts@, ends@, path@),
                        points_wf(path@),
                        keeps@.len() == base_keeps.len() ==> (base_keeps.len() > 0 ==> qp_same(
                            ends@.last().qp(),
                            path@[w - 1].qp(),
                        )) && (base_keeps.len() == 0 ==> qp_same(path@[w - 1].qp(), path@[0].qp())),
                        edge.wf(),
                        rationals_wf(values@),
                        half.wf(),
                        half.q() == (1int, 2int),
                        exact_fragments_classified(keeps@, starts@, ends@, closed_subjects@, clips@, clip_type, fill_rule),
                        paths_wf(closed_subjects@),
                        paths_wf(clips@),
                        edge_count(closed_subjects@, closed_subjects@.len() as nat) <= i128::MAX,
                        edge_count(clips@, clips@.len() as nat) <= i128::MAX,
                        points_wf(starts@),
                        points_wf(ends@),
                        starts@.len() == keeps@.len(),
                        ends@.len() == keeps@.len(),
                        1 <= k,
                        p < open_paths@.len(),
                        path@ == open_paths@[p as int]@,
                        1 <= w < path@.len(),
                        edge.start.qp() == path@[w - 1].qp(),
                        edge.end.qp() == path@[w as int].qp(),
                        forall|j: int| 0 <= j < values@.len() ==> q_unit((#[trigger] values@[j]).q()),
                        fragments_on_open(open_paths@[p as int]@, starts@, ends@),
                        values@.len() >= 1 ==> k <= values@.len(),
                        keeps@.len() == base_keeps.len() + k - 1,
                        forall|f: int| 0 <= f < base_keeps.len() ==> #[trigger] keeps@[f] == base_keeps[f],
                        forall|f: int| 0 <= f < base_ends.len() ==> #[trigger] ends@[f] == base_ends[f],
                        base_ends.len() == base_keeps.len(),
                        k > 1 ==> ends@[keeps@.len() - 1].qp() == qp_point_at(
                            edge.start.qp(),
                            edge.end.qp(),
                            values@[k - 1].q(),
                        ),
                        k > 1 && (closed_subjects@.len() == 0 && clips@.len() == 0 && clip_type != ClipType::Intersection) ==> keeps@[keeps@.len() - 1] == Some(true),
                    decreases values@.len() - k,
                {
                    proof {
                        assert(values@[k - 1].wf());
                        assert(values@[k as int].wf());
                    }
                    let start = point_at(&edge.start, &edge.end, &values[k - 1]);
                    let end = point_at(&edge.start, &edge.end, &values[k]);
                    let midpoint = point_at(&start, &end, &half);
                    let keep = open_fragment_keep(&midpoint, closed_subjects, clips, clip_type, fill_rule);
                    proof {
                        if closed_subjects@.len() == 0 && clips@.len() == 0 && clip_type != ClipType::Intersection {
                            lemma_empty_keep(midpoint.qp(), closed_subjects@, clips@, clip_type, fill_rule);
                        }
                    }
                    proof {
                        assert(at_open_parameter(open_paths@[p as int]@, w - 1, values@[k - 1].q(), start.qp()));
                        assert(at_open_parameter(open_paths@[p as int]@, w - 1, values@[k as int].q(), end.qp()));
                    }
                    let ghost old_starts = starts@;
                    let ghost old_ends = ends@;
                    let ghost old_keeps = keeps@;
                    proof {
                        assert(edge.start.wf());
                        assert(path@[w - 1].wf());
                        assert(values@[0].wf());
                        if old_keeps.len() == base_keeps.len() {
                            assert(k == 1);
                            lemma_point_at_zero(edge.start.qp(), edge.end.qp(), values@[0].q());
                            assert(qp_same(start.qp(), path@[w - 1].qp()));
                            if base_keeps.len() > 0 {
                                assert(qp_same(path@[w - 1].qp(), old_ends.last().qp()));
                                crate::exact::lemma_qp_same_transitive(start.qp(), path@[w - 1].qp(), old_ends.last().qp());
                            } else {
                                crate::exact::lemma_qp_same_transitive(start.qp(), path@[w - 1].qp(), path@[0].qp());
                            }
                        } else {
                            assert(old_ends.last().qp() == start.qp());
                        }
                    }
                    keeps.push(keep);
                    starts.push(start);
                    ends.push(end);
                    proof {
                        lemma_chain_push(
                            old_starts,
                            old_ends,
                            starts@,
                            ends@,
                            path@,
                            w - 1,
                            values@[k - 1].q(),
                            values@[k as int].q(),
                        );
                        assert forall|i: int| 0 <= i < keeps@.len() implies #[trigger] keeps@[i] == open_keep_spec(
                            qp_point_at(starts@[i].qp(), ends@[i].qp(), (1int, 2int)),
                            closed_subjects@,
                            clips@,
                            clip_type,
                            fill_rule,
                        ) by {
                            if i < old_keeps.len() {
                                assert(keeps@[i] == old_keeps[i] && starts@[i] == old_starts[i] && ends@[i] == old_ends[i]);
                            }
                        }
                        assert forall|i: int| 0 <= i < starts@.len() implies on_open_path(
                            open_paths@[p as int]@,
                            (#[trigger] starts@[i]).qp(),
                        ) && on_open_path(open_paths@[p as int]@, ends@[i].qp()) by {
                            if i < old_starts.len() {
                                assert(starts@[i] == old_starts[i] && ends@[i] == old_ends[i]);
                            }
                        }
                        assert(fragments_on_open(open_paths@[p as int]@, starts@, ends@));
                    }
                    k += 1;
                }
                proof {
                    let last = values@.len() - 1;
                    assert(values@[last].wf());
                    assert(edge.start.wf() && edge.end.wf());
                    lemma_point_at_one(edge.start.qp(), edge.end.qp(), values@[last].q());
                    assert(qp_same(ends@.last().qp(), path@[w as int].qp()));
                }
                proof {
                    if closed_subjects@.len() == 0 && clips@.len() == 0 && clip_type != ClipType::Intersection {
                        assert(value_present(values@, parameters@[1]));
                        assert(value_present(values@, parameters@[0]));
                        let a = choose|a: int| 0 <= a < values@.len() && (#[trigger] values@[a]).same(parameters@[1]);
                        let c = choose|c: int| 0 <= c < values@.len() && (#[trigger] values@[c]).same(parameters@[0]);
                        assert(values@[a].wf() && values@[c].wf());
                        assert(a != c);
                        let last = values@.len() - 1;
                        assert(values@[last].wf());
                        if a < last {
                            crate::arrangement::lemma_rising_values(values@, a, last);
                            let (an, ad, ln, ld) = (values@[a].num(), values@[a].den(), values@[last].num(), values@[last].den());
                            assert(q_unit(values@[last].q()));
                            assert(false) by (nonlinear_arith)
                                requires
                                    an * 1 == 1 * ad,
                                    ad > 0,
                                    ld > 0,
                                    an * ld < ln * ad,
                                    ln <= ld,
                            ;
                        }
                        assert(k == values@.len());
                        assert(edge.start.wf() && edge.end.wf());
                        lemma_point_at_one(edge.start.qp(), edge.end.qp(), values@[last].q());
                        let f = keeps@.len() - 1;
                        assert(qp_same(ends@[f].qp(), path@[w as int].qp()));
                        assert forall|v: int|
                            1 <= v < w + 1 && !qp_same(path@[v - 1].qp(), (#[trigger] path@[v]).qp()) implies kept_end_near(
                            ends@,
                            keeps@,
                            path@[v].qp(),
                        ) by {
                            if v < w {
                                lemma_kept_end_grows(base_ends, base_keeps, ends@, keeps@, path@[v].qp());
                            } else {
                                assert(keeps@[f] == Some(true));
                            }
                        }
                    }
                }
            } else {
                proof {
                    assert(qp_same(path@[w - 1].qp(), path@[w as int].qp()));
                    if starts@.len() > 0 {
                        crate::exact::lemma_qp_same_transitive(ends@.last().qp(), path@[w - 1].qp(), path@[w as int].qp());
                    } else {
                        assert(qp_same(path@[w - 1].qp(), path@[0].qp()));
                        crate::exact::lemma_qp_same_transitive(path@[w as int].qp(), path@[w - 1].qp(), path@[0].qp());
                    }
                }
            }
            w += 1;
        }
        proof {
            if path@.len() > 0 {
                assert(w == path@.len());
            }
            assert(exact_fragments_cover(starts@, ends@, path@));
        }
        let ghost unresolved = keeps@;
        resolve_boundary_keeps(&mut keeps, &starts, &ends);
        let ghost before = output@;
        append_open_fragments(&keeps, &starts, &ends, &mut output);
        proof {
            assert forall|k: int| 0 <= k < keeps@.len() implies (#[trigger] keeps@[k]) is Some && (open_keep_spec(
                qp_point_at(starts@[k].qp(), ends@[k].qp(), (1int, 2int)),
                closed_subjects@,
                clips@,
                clip_type,
                fill_rule,
            ) matches Some(keep) ==> keeps@[k] == Some(keep)) by {
                assert(unresolved[k] == open_keep_spec(
                    qp_point_at(starts@[k].qp(), ends@[k].qp(), (1int, 2int)),
                    closed_subjects@,
                    clips@,
                    clip_type,
                    fill_rule,
                ));
            }
            let piece = (keeps@, starts@, ends@);
            assert(pieces.push(piece).drop_last() =~= pieces);
            assert(exact_runs_of_paths(pieces.push(piece)) == lines_qps(output@));
            pieces = pieces.push(piece);
            assert forall|q: int| 0 <= q < pieces.len() implies exact_fragments_decided(
                (#[trigger] pieces[q]).0,
                pieces[q].1,
                pieces[q].2,
                open_paths@[q]@,
                closed_subjects@,
                clips@,
                clip_type,
                fill_rule,
            ) && exact_fragments_cover(pieces[q].1, pieces[q].2, open_paths@[q]@) by {
            }
            assert forall|i: int| 0 <= i < output@.len() implies #[trigger] line_along_some(output@[i]@, open_paths@) by {
                if i < before.len() {
                    assert(output@[i] == before[i]);
                } else {
                    assert forall|j: int| 0 <= j < output@[i]@.len() implies on_open_path(
                        open_paths@[p as int]@,
                        #[trigger] output@[i]@[j].qp(),
                    ) by {
                        lemma_fragment_on_open_path(starts@, ends@, open_paths@[p as int]@, output@[i]@[j].qp());
                    }
                    assert(line_on_open_path(output@[i]@, open_paths@[p as int]@));
                }
            }
            if closed_subjects@.len() == 0 && clips@.len() == 0 && clip_type != ClipType::Intersection {
                assert forall|q: int, w: int|
                    0 <= q < p + 1 && 1 <= w < open_paths@[q]@.len() && !qp_same(
                        open_paths@[q]@[w - 1].qp(),
                        (#[trigger] open_paths@[q]@[w]).qp(),
                    ) implies line_reaches(output@, open_paths@[q]@[w].qp()) by {
                    if q < p {
                        lemma_line_reaches_grows(before, output@, open_paths@[q]@[w].qp());
                    } else {
                        assert(path@ == open_paths@[q]@);
                        assert(kept_end_near(ends@, unresolved, path@[w].qp()));
                        let f = choose|f: int|
                            0 <= f < unresolved.len() && f < ends@.len() && unresolved[f] == Some(true) && #[trigger] qp_same(
                                ends@[f].qp(),
                                path@[w].qp(),
                            );
                        assert(keeps@[f] == Some(true));
                        assert(point_emitted(output@, before.len() as int, ends@[f].qp()));
                        let i = choose|i: int| before.len() <= i < output@.len() && line_has(#[trigger] output@[i]@, ends@[f].qp());
                        let j = choose|j: int| 0 <= j < output@[i]@.len() && #[trigger] output@[i]@[j].qp() == ends@[f].qp();
                        assert(qp_same(output@[i]@[j].qp(), path@[w].qp()));
                    }
                }
            }
        }
        p += 1;
    }
    proof {
        assert(exact_runs_of_paths(pieces) == lines_qps(output@));
    }
    output
}

#[verifier::spinoff_prover]
fn append_edges(paths: &[Vec<ExactPoint>], edges: &mut Vec<Edge>)
    requires
        paths_wf(paths@),
        edges_wf(old(edges)@),
    ensures
        edges_wf(final(edges)@),
        final(edges)@.len() >= old(edges)@.len(),
        forall|k: int| 0 <= k < old(edges)@.len() ==> #[trigger] final(edges)@[k] == old(edges)@[k],
        forall|k: int|
            old(edges)@.len() <= k < final(edges)@.len() ==> edge_of_paths(paths@, #[trigger] final(edges)@[k]),
        steps_collected(final(edges)@, old(edges)@.len() as int, paths@, paths@.len() as int),
{
    let ghost initial = edges@;
    let mut index: usize = 0;
    while index < paths.len()
        invariant
            paths_wf(paths@),
            edges_wf(edges@),
            index <= paths@.len(),
            initial == old(edges)@,
            edges@.len() >= initial.len(),
            forall|k: int| 0 <= k < initial.len() ==> #[trigger] edges@[k] == initial[k],
            forall|k: int| initial.len() <= k < edges@.len() ==> edge_of_paths(paths@, #[trigger] edges@[k]),
            steps_collected(edges@, initial.len() as int, paths@, index as int),
        decreases paths@.len() - index,
    {
        proof {
            assert(points_wf(paths@[index as int]@));
        }
        let path_edges = path_edges(&paths[index]);
        let ghost base = edges@;
        let mut k: usize = 0;
        while k < path_edges.len()
            invariant
                edges_wf(path_edges@),
                edges_wf(edges@),
                k <= path_edges@.len(),
                index < paths@.len(),
                base.len() >= initial.len(),
                edges@.len() == base.len() + k,
                forall|j: int| 0 <= j < base.len() ==> #[trigger] edges@[j] == base[j],
                forall|j: int| 0 <= j < k ==> #[trigger] edges@[base.len() + j].start.qp() == path_edges@[j].start.qp()
                    && edges@[base.len() + j].end.qp() == path_edges@[j].end.qp(),
            decreases path_edges@.len() - k,
        {
            proof {
                assert(path_edges@[k as int].wf());
            }
            let edge = &path_edges[k];
            let ghost before = edges@;
            edges.push(Edge::new(edge.start.copy(), edge.end.copy()));
            proof {
                assert forall|j: int| 0 <= j < k + 1 implies #[trigger] edges@[base.len() + j].start.qp()
                    == path_edges@[j].start.qp() && edges@[base.len() + j].end.qp() == path_edges@[j].end.qp() by {
                    if j < k {
                        assert(edges@[base.len() + j] == before[base.len() + j]);
                    }
                }
            }
            k += 1;
        }
        proof {
            let path = paths@[index as int]@;
            assert forall|j: int| initial.len() <= j < edges@.len() implies edge_of_paths(paths@, #[trigger] edges@[j]) by {
                if j < base.len() {
                    assert(edges@[j] == base[j]);
                } else {
                    let e = path_edges@[j - base.len()];
                    assert(edges@[base.len() + (j - base.len())] == edges@[j]);
                    assert(edge_from_path(path, e));
                    let m = choose|m: int| 0 <= m < path.len() && #[trigger] edge_of_path(path, m, e);
                    assert(edge_of_path(paths@[index as int]@, m, edges@[j]));
                }
            }
            lemma_collected_grows(base, edges@, initial.len() as int, paths@, index as int);
            assert forall|p: int, m: int|
                0 <= p < index + 1 && 0 <= m < paths@[p]@.len() && #[trigger] proper_step(paths@[p]@, m)
                implies step_collected(edges@, initial.len() as int, paths@[p]@, m) by {
                if p < index {
                    assert(steps_collected(edges@, initial.len() as int, paths@, index as int));
                } else {
                    assert(path_edge_listed(path, path_edges@, m));
                    let q = choose|q: int| 0 <= q < path_edges@.len() && #[trigger] edge_of_path(path, m, path_edges@[q]);
                    assert(edges@[base.len() + q].start.qp() == path_edges@[q].start.qp());
                    assert(edge_of_path(path, m, edges@[base.len() + q]));
                }
            }
        }
        index += 1;
    }
}

} // verus!
