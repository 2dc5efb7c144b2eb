//! The integer Boolean operation over closed and open paths.

use vstd::prelude::*;

use crate::error::Error;
use crate::exact::paths_wf;
use crate::geometry::Point64;
use crate::open64::try_clip_open_paths64;
use crate::open_exact::{clip_open_paths, exact_open_paths64, lines_qps, open_clip_exact_result, open_kept};
use crate::open64::{open_clip_certifiable64, open_clip_result64, unclipped_lines64};
use crate::geometry::normalize_spec;
use crate::exact::edge_count;
use crate::PathKind;
use crate::request::{BooleanOutput, BooleanRequest, ClipType, FillRule};
use crate::rings::{exact_paths64, exact_paths_to_i64, finish_exact_boolean, kept_rings, paths_integral64, run_boolean};
use crate::exact::ExactPoint;
use crate::overlay::{shortcut_applies, shortcut_outcome};
use crate::request::views;
use crate::rings::{exact_of, integral64};
use crate::vertex_origin::{
    exact_rings_of, lemma_lines64_on_open_paths, lemma_rings64_on_inputs, lemma_shortcut_integer_points,
    lines64_on_open_paths, point64_q, rings64_on_inputs,
};

verus! {

/// The errors that the exact kernel can report.
pub open spec fn kernel_error(error: Error) -> bool {
    error == Error::TopologyFailure || error == Error::ArithmeticOverflow || error == Error::NonIntegralResult
}

/// Every path has at least `minimum` points.
pub open spec fn paths_at_least(paths: Seq<Vec<Point64>>, minimum: nat) -> bool {
    forall|i: int| 0 <= i < paths.len() ==> (#[trigger] paths[i])@.len() >= minimum
}

/// The cases in which the closed result is empty whatever the paths: no
/// closed path at all; an intersection with an empty side; a difference
/// with no subject. Beyond the first, the even-odd or non-zero rule.
pub open spec fn closed_result_empty(subjects: nat, clips: nat, clip_type: ClipType, fill_rule: FillRule) -> bool {
    ||| (subjects == 0 && clips == 0)
    ||| (subjects == 0 && (clip_type == ClipType::Intersection || clip_type == ClipType::Difference))
    ||| ((fill_rule == FillRule::EvenOdd || fill_rule == FillRule::NonZero) && clips == 0 && clip_type
        == ClipType::Intersection)
}

/// The cheap cases over integer rings: for some exact paths holding the
/// subject and clip rings, where the cheap cases answer, the operation
/// succeeds and its rings are, point for point, the cheap answer (the input
/// rings themselves, turned counter-clockwise, or none).
pub open spec fn cheap_case_result(
    subject_rings: Seq<Seq<Point64>>,
    clip_rings: Seq<Seq<Point64>>,
    clip_type: ClipType,
    fill_rule: FillRule,
    closed: Option<Seq<Vec<Point64>>>,
) -> bool {
    exists|subjects: Seq<Vec<ExactPoint>>, clips: Seq<Vec<ExactPoint>>|
        #[trigger] exact_rings_of(subject_rings, subjects) && #[trigger] exact_rings_of(clip_rings, clips) && paths_wf(
            subjects,
        ) && paths_wf(clips) && (shortcut_applies(subjects, clips, clip_type, fill_rule) ==> closed_witness_holds(
            subjects,
            clips,
            clip_type,
            closed,
        ))
}

/// Some exact outcome of the cheap cases is, point for point, the integer
/// rings `closed`.
pub open spec fn closed_witness_holds(
    subjects: Seq<Vec<ExactPoint>>,
    clips: Seq<Vec<ExactPoint>>,
    clip_type: ClipType,
    closed: Option<Seq<Vec<Point64>>>,
) -> bool {
    closed matches Some(rings) && exists|outcome: Seq<Vec<ExactPoint>>|
        #[trigger] shortcut_outcome(subjects, clips, clip_type, outcome) && exact_rings_of(views(rings), outcome)
}

/// The integer rings are, point for point, rings of the exact kernel run on
/// the exact closed inputs with the given operation and fill rule: the cheap
/// answer where it applies, otherwise rings traced along the boundary that
/// the operation and fill rule decide.
pub open spec fn closed_kernel_result(
    closed: Seq<Vec<Point64>>,
    subject_rings: Seq<Seq<Point64>>,
    clip_rings: Seq<Seq<Point64>>,
    clip_type: ClipType,
    fill_rule: FillRule,
) -> bool {
    exists|subjects: Seq<Vec<ExactPoint>>, clips: Seq<Vec<ExactPoint>>, traced: Seq<Vec<ExactPoint>>|
        #[trigger] exact_rings_of(subject_rings, subjects) && #[trigger] exact_rings_of(clip_rings, clips)
            && #[trigger] integer_lines_of(closed, traced) && paths_wf(subjects) && paths_wf(clips) && (
        shortcut_applies(subjects, clips, clip_type, fill_rule) || crate::rings::kernel_traced(
            traced,
            subjects,
            clips,
            clip_type,
            fill_rule,
        ))
}

/// The closed rings of a Boolean operation, computed exactly.
pub fn closed_boolean64(request: &BooleanRequest<'_, Vec<Point64>>) -> (result: Result<Vec<Vec<Point64>>, Error>)
    ensures
        result matches Err(error) ==> kernel_error(error),
        closed_result_empty(request.closed_subjects@.len(), request.clips@.len(), request.clip_type, request.fill_rule)
            ==> (result matches Ok(rings) && rings@.len() == 0),
        result matches Ok(rings) ==> rings64_on_inputs(
            rings@,
            kept_rings(request.closed_subjects@),
            kept_rings(request.clips@),
        ),
        !(request.closed_subjects@.len() == 0 && (request.clip_type == ClipType::Intersection || request.clip_type
            == ClipType::Difference)) ==> cheap_case_result(
            kept_rings(request.closed_subjects@),
            kept_rings(request.clips@),
            request.clip_type,
            request.fill_rule,
            match result {
                Ok(rings) => Some(rings@),
                Err(_) => None,
            },
        ),
        result matches Ok(rings) ==> (!(request.closed_subjects@.len() == 0 && (request.clip_type
            == ClipType::Intersection || request.clip_type == ClipType::Difference)) ==> closed_kernel_result(
            rings@,
            kept_rings(request.closed_subjects@),
            kept_rings(request.clips@),
            request.clip_type,
            request.fill_rule,
        )),
{
    match request.clip_type {
        ClipType::Intersection | ClipType::Difference => {
            if request.closed_subjects.len() == 0 {
                return Ok(Vec::new());
            }
        },
        _ => {},
    }
    let subjects = exact_paths64(request.closed_subjects);
    let clips = exact_paths64(request.clips);
    let traced = run_boolean(subjects.as_slice(), clips.as_slice(), request.clip_type, request.fill_rule);
    let ghost traced_rings = traced;
    let finished = finish_exact_boolean(traced);
    proof {
        if traced_rings is Ok {
            let rings = traced_rings->Ok_0;
            if rings@.len() == 0 {
                assert(paths_integral64(rings@));
            }
            if shortcut_applies(subjects@, clips@, request.clip_type, request.fill_rule) {
                assert(shortcut_outcome(subjects@, clips@, request.clip_type, rings@));
                assert(exact_rings_of(kept_rings(request.closed_subjects@), subjects@));
                assert(exact_rings_of(kept_rings(request.clips@), clips@));
                assert forall|i: int, j: int| 0 <= i < rings@.len() && 0 <= j < rings@[i]@.len() implies integral64(
                    (#[trigger] rings@[i]@[j]).x,
                ) && integral64(rings@[i]@[j].y) && rings@[i]@[j].x.den() == 1 && rings@[i]@[j].y.den() == 1 by {
                    lemma_shortcut_integer_points(
                        kept_rings(request.closed_subjects@),
                        kept_rings(request.clips@),
                        subjects@,
                        clips@,
                        request.clip_type,
                        rings@,
                        i,
                        j,
                    );
                    let point = choose|point: Point64| rings@[i]@[j].qp() == #[trigger] point64_q(point);
                    assert(rings@[i]@[j].x.num() % 1 == 0 && rings@[i]@[j].y.num() % 1 == 0);
                }
                assert(paths_integral64(rings@));
                let converted = finished->Ok_0;
                assert(exact_rings_of(views(converted@), rings@)) by {
                    assert forall|i: int| 0 <= i < views(converted@).len() implies exact_of(
                        views(converted@)[i],
                        #[trigger] rings@[i]@,
                    ) by {
                        assert(views(converted@)[i] == converted@[i]@);
                        assert forall|j: int| 0 <= j < rings@[i]@.len() implies (#[trigger] rings@[i]@[j]).qp() == (
                        (converted@[i]@[j].x as int, 1int),
                        (converted@[i]@[j].y as int, 1int),
                        ) by {
                            assert(rings@[i]@[j].x.den() == 1);
                            assert(rings@[i]@[j].y.den() == 1);
                        }
                    }
                }
                assert(closed_witness_holds(subjects@, clips@, request.clip_type, Some(converted@)));
            }
            if finished is Ok {
                lemma_rings64_on_inputs(
                    finished->Ok_0@,
                    rings@,
                    kept_rings(request.closed_subjects@),
                    kept_rings(request.clips@),
                    subjects@,
                    clips@,
                );
            }
        }
    }
    proof {
        assert(exact_rings_of(kept_rings(request.closed_subjects@), subjects@));
        assert(exact_rings_of(kept_rings(request.clips@), clips@));
        if finished is Ok {
            let rings = traced_rings->Ok_0;
            let converted = finished->Ok_0;
            assert(integer_lines_of(converted@, rings@));
        }
    }
    finished
}

/// The exact paths the exact clipper works on: the normalized open paths
/// of at least two points, and the kept closed rings, point for point.
pub open spec fn exact_clip_inputs(
    open_subjects: Seq<Vec<Point64>>,
    closed_subjects: Seq<Vec<Point64>>,
    clips: Seq<Vec<Point64>>,
    exact_open: Seq<Vec<ExactPoint>>,
    exact_closed: Seq<Vec<ExactPoint>>,
    exact_clips: Seq<Vec<ExactPoint>>,
) -> bool {
    &&& exact_open.len() == open_kept(open_subjects, open_subjects.len()).len()
    &&& forall|i: int|
        0 <= i < exact_open.len() ==> exact_of(
            normalize_spec(open_subjects[open_kept(open_subjects, open_subjects.len())[i]]@, PathKind::Open),
            #[trigger] exact_open[i]@,
        )
    &&& exact_rings_of(kept_rings(closed_subjects), exact_closed)
    &&& exact_rings_of(kept_rings(clips), exact_clips)
}

/// The integer lines hold, point for point, the values of the exact lines.
pub open spec fn integer_lines_of(lines: Seq<Vec<Point64>>, exact: Seq<Vec<ExactPoint>>) -> bool {
    &&& lines.len() == exact.len()
    &&& forall|i: int|
        0 <= i < lines.len() ==> (#[trigger] lines[i])@.len() == exact[i]@.len() && forall|j: int|
            0 <= j < exact[i]@.len() ==> (#[trigger] exact[i]@[j]).x.num() == lines[i]@[j].x * exact[i]@[j].x.den()
                && exact[i]@[j].y.num() == lines[i]@[j].y * exact[i]@[j].y.den()
}

/// The open lines of a request: the certified integer clipper's answer, or
/// the exact clipper's on the exact paths, converted back point for point.
pub open spec fn open_lines_result(
    lines: Seq<Vec<Point64>>,
    open_subjects: Seq<Vec<Point64>>,
    closed_subjects: Seq<Vec<Point64>>,
    clips: Seq<Vec<Point64>>,
    clip_type: ClipType,
    fill_rule: FillRule,
) -> bool {
    ||| open_clip_result64(views(lines), open_subjects, closed_subjects, clips, clip_type, fill_rule)
    ||| exists|
        exact_open: Seq<Vec<ExactPoint>>,
        exact_closed: Seq<Vec<ExactPoint>>,
        exact_clips: Seq<Vec<ExactPoint>>,
        clipped: Seq<Vec<ExactPoint>>,
    |
        #[trigger] exact_clip_inputs(open_subjects, closed_subjects, clips, exact_open, exact_closed, exact_clips)
            && #[trigger] integer_lines_of(lines, clipped) && ((edge_count(exact_closed, exact_closed.len() as nat)
            <= u64::MAX && edge_count(exact_clips, exact_clips.len() as nat) <= u64::MAX) ==> open_clip_exact_result(
            lines_qps(clipped),
            exact_open,
            exact_closed,
            exact_clips,
            clip_type,
            fill_rule,
        ))
}

/// Executes a validated integer Boolean request: the closed rings by the
/// exact kernel, and the open polylines by the certified integer clipper or,
/// when it cannot certify a step, by the exact clipper.
pub fn boolean_op64(request: &BooleanRequest<'_, Vec<Point64>>) -> (result: Result<BooleanOutput<Vec<Point64>>, Error>)
    ensures
        result matches Err(error) ==> kernel_error(error),
        result matches Ok(output) ==> (request.open_subjects@.len() == 0 ==> output.open@.len() == 0),
        result matches Ok(output) ==> paths_at_least(output.open@, 2),
        (request.open_subjects@.len() == 0 && closed_result_empty(
            request.closed_subjects@.len(),
            request.clips@.len(),
            request.clip_type,
            request.fill_rule,
        )) ==> (result matches Ok(output) && output.closed@.len() == 0 && output.open@.len() == 0),
        result matches Ok(output) ==> (closed_result_empty(
            request.closed_subjects@.len(),
            request.clips@.len(),
            request.clip_type,
            request.fill_rule,
        ) ==> output.closed@.len() == 0),
        result matches Ok(output) ==> rings64_on_inputs(
            output.closed@,
            kept_rings(request.closed_subjects@),
            kept_rings(request.clips@),
        ),
        result matches Ok(output) ==> lines64_on_open_paths(output.open@, request.open_subjects@),
        (request.open_subjects@.len() == 0 && !(request.closed_subjects@.len() == 0 && (request.clip_type
            == ClipType::Intersection || request.clip_type == ClipType::Difference))) ==> cheap_case_result(
            kept_rings(request.closed_subjects@),
            kept_rings(request.clips@),
            request.clip_type,
            request.fill_rule,
            match result {
                Ok(output) => Some(output.closed@),
                Err(_) => None,
            },
        ),
        result matches Ok(output) ==> (!(request.closed_subjects@.len() == 0 && (request.clip_type
            == ClipType::Intersection || request.clip_type == ClipType::Difference)) ==> cheap_case_result(
            kept_rings(request.closed_subjects@),
            kept_rings(request.clips@),
            request.clip_type,
            request.fill_rule,
            Some(output.closed@),
        )),
        (request.clips@.len() == 0 && (request.clip_type != ClipType::Union || request.closed_subjects@.len() == 0)
            && closed_result_empty(
            request.closed_subjects@.len(),
            request.clips@.len(),
            request.clip_type,
            request.fill_rule,
        )) ==> result is Ok,
        result matches Ok(output) ==> (!(request.closed_subjects@.len() == 0 && (request.clip_type
            == ClipType::Intersection || request.clip_type == ClipType::Difference)) ==> closed_kernel_result(
            output.closed@,
            kept_rings(request.closed_subjects@),
            kept_rings(request.clips@),
            request.clip_type,
            request.fill_rule,
        )),
        result matches Ok(output) ==> (request.clips@.len() == 0 && (request.clip_type != ClipType::Union
            || request.closed_subjects@.len() == 0) ==> views(output.open@) == unclipped_lines64(
            request.open_subjects@,
            request.clip_type,
        )),
        result matches Ok(output) ==> (open_clip_certifiable64(
            request.open_subjects@,
            request.closed_subjects@,
            request.clips@,
            request.clip_type,
        ) ==> open_clip_result64(
            views(output.open@),
            request.open_subjects@,
            request.closed_subjects@,
            request.clips@,
            request.clip_type,
            request.fill_rule,
        )),
        result matches Ok(output) ==> (request.open_subjects@.len() > 0 ==> open_lines_result(
            output.open@,
            request.open_subjects@,
            request.closed_subjects@,
            request.clips@,
            request.clip_type,
            request.fill_rule,
        )),
{
    let closed = match closed_boolean64(request) {
        Ok(closed) => closed,
        Err(error) => return Err(error),
    };
    if request.open_subjects.len() == 0 {
        let open: Vec<Vec<Point64>> = Vec::new();
        proof {
            assert(crate::open64::whole_open_paths64(request.open_subjects@, 0) =~= Seq::<Seq<Point64>>::empty());
            assert(views(open@) =~= Seq::<Seq<Point64>>::empty());
            assert(crate::open64::runs_of_paths64(Seq::<Seq<crate::open64::OpenFragment64>>::empty()) == views(
                open@,
            ));
        }
        return Ok(BooleanOutput { closed, open });
    }
    let open = match try_clip_open_paths64(
        request.open_subjects,
        request.closed_subjects,
        request.clips,
        request.clip_type,
        request.fill_rule,
    ) {
        Some(open) => open,
        None => {
            let closed_subjects = exact_paths64(request.closed_subjects);
            let clips = exact_paths64(request.clips);
            let open_subjects = exact_open_paths64(request.open_subjects);
            let clipped = clip_open_paths(
                open_subjects.as_slice(),
                closed_subjects.as_slice(),
                clips.as_slice(),
                request.clip_type,
                request.fill_rule,
            );
            match exact_paths_to_i64(&clipped) {
                Ok(open) => {
                    proof {
                        lemma_lines64_on_open_paths(open@, clipped@, request.open_subjects@, open_subjects@);
                        assert(exact_rings_of(kept_rings(request.closed_subjects@), closed_subjects@));
                        assert(exact_rings_of(kept_rings(request.clips@), clips@));
                        assert(exact_clip_inputs(
                            request.open_subjects@,
                            request.closed_subjects@,
                            request.clips@,
                            open_subjects@,
                            closed_subjects@,
                            clips@,
                        ));
                        assert(integer_lines_of(open@, clipped@));
                    }
                    open
                },
                Err(error) => return Err(error),
            }
        },
    };
    Ok(BooleanOutput { closed, open })
}

} // verus!
