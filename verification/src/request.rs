//! Public operation contracts for integer paths.

use vstd::prelude::*;

use crate::complexity::{BooleanComplexity, ComplexityLimits, check_totals};
use crate::error::Error;
use crate::geometry::{Point64, invalid_path_error, path_valid, validate_path64};
use crate::PathKind;

verus! {

/// A boolean operation over filled paths.
#[derive(Clone, Copy, Debug, PartialEq, Eq, Structural)]
pub enum ClipType {
    /// Keep the region present in both inputs.
    Intersection,
    /// Keep the region present in either input.
    Union,
    /// Keep the subject region outside the clip region.
    Difference,
    /// Keep the region present in exactly one input.
    Xor,
}

impl ClipType {
    /// The stable numeric value of this operation: 1 to 4 in declaration
    /// order.
    pub fn code(self) -> (code: u8)
        ensures
            code == crate::ffi::clip_type_code(self),
    {
        match self {
            ClipType::Intersection => 1,
            ClipType::Union => 2,
            ClipType::Difference => 3,
            ClipType::Xor => 4,
        }
    }
}

/// A winding/fill rule used to interpret input paths.
///
/// `EvenOdd` depends only on crossing parity. The other rules use the signed
/// winding accumulated by a path, which makes ring orientation meaningful.
#[derive(Clone, Copy, Debug, PartialEq, Eq, Structural)]
pub enum FillRule {
    /// Alternate parity at every crossing.
    EvenOdd,
    /// Non-zero winding number.
    NonZero,
    /// Keep only positively wound regions.
    Positive,
    /// Keep only negatively wound regions.
    Negative,
}

/// Borrowed paths and options for one bounded Boolean operation.
///
/// Closed subjects and clips define filled regions; clips are always closed.
/// Open subjects are polylines and never contribute winding or affect the
/// closed result. Intersection retains open fragments inside clips, difference
/// and XOR retain fragments outside clips, and union retains fragments outside
/// every filled closed subject and clip. Open paths do not interact with one
/// another.
#[derive(Debug)]
pub struct BooleanRequest<'a, P> {
    /// Closed subject paths, the filled left-hand side of the operation.
    pub closed_subjects: &'a [P],
    /// Open subject polylines to clip.
    pub open_subjects: &'a [P],
    /// Closed clip paths, the right-hand side of the operation.
    pub clips: &'a [P],
    /// Boolean operation to perform.
    pub clip_type: ClipType,
    /// Fill rule for both path sets.
    pub fill_rule: FillRule,
    /// Deterministic input-complexity budget.
    pub limits: ComplexityLimits,
}

impl<'a, P> Copy for BooleanRequest<'a, P> {}

impl<'a, P> Clone for BooleanRequest<'a, P> {
    fn clone(&self) -> (result: Self)
        ensures
            result == *self,
    {
        *self
    }
}

impl<'a, P> BooleanRequest<'a, P> {
    /// Creates a closed-subject Boolean request with the default limits.
    pub fn new(closed_subjects: &'a [P], clips: &'a [P], clip_type: ClipType, fill_rule: FillRule) -> (request: Self)
        ensures
            request.closed_subjects@ == closed_subjects@,
            request.open_subjects@.len() == 0,
            request.clips@ == clips@,
            request.clip_type == clip_type,
            request.fill_rule == fill_rule,
            request.limits == ComplexityLimits::default_spec(),
            request.limits.spec_max_paths() == 1_024,
            request.limits.spec_max_vertices() == 1_000_000,
            request.limits.spec_max_edge_pairs() == 4_000_000,
    {
        BooleanRequest {
            closed_subjects,
            open_subjects: &[],
            clips,
            clip_type,
            fill_rule,
            limits: ComplexityLimits::default_limits(),
        }
    }
}

/// Separate closed and open outputs from a Boolean operation.
#[derive(Clone, Debug, Default, PartialEq, Eq)]
pub struct BooleanOutput<P> {
    /// Closed polygon rings produced by the operation.
    pub closed: Vec<P>,
    /// Clipped open subject polylines.
    pub open: Vec<P>,
}

/// The point sequences of a list of paths.
pub open spec fn views(paths: Seq<Vec<Point64>>) -> Seq<Seq<Point64>> {
    paths.map_values(|path: Vec<Point64>| path@)
}

/// The totals after charging the closed paths `paths` in order.
pub open spec fn charge_closed(start: BooleanComplexity, paths: Seq<Seq<Point64>>, subject: bool) -> BooleanComplexity
    decreases paths.len(),
{
    if paths.len() == 0 {
        start
    } else {
        charge_closed(start, paths.drop_last(), subject).with_closed(paths.last().len() as int, subject)
    }
}

/// The totals after charging the open paths `paths` in order.
pub open spec fn charge_open(start: BooleanComplexity, paths: Seq<Seq<Point64>>) -> BooleanComplexity
    decreases paths.len(),
{
    if paths.len() == 0 {
        start
    } else {
        charge_open(start, paths.drop_last()).with_open(paths.last().len() as int)
    }
}

/// The totals of a whole request: closed subjects, then open subjects, then
/// clips.
pub open spec fn totals_of(
    closed: Seq<Seq<Point64>>,
    open: Seq<Seq<Point64>>,
    clips: Seq<Seq<Point64>>,
) -> BooleanComplexity {
    charge_closed(charge_open(charge_closed(BooleanComplexity::zero(), closed, true), open), clips, false)
}

/// The error of the first invalid path among `paths`, if any.
pub open spec fn first_path_error(paths: Seq<Seq<Point64>>, kind: PathKind) -> Option<Error>
    decreases paths.len(),
{
    if paths.len() == 0 {
        None
    } else {
        match first_path_error(paths.drop_last(), kind) {
            Some(error) => Some(error),
            None => if path_valid(paths.last(), kind) {
                None
            } else {
                Some(invalid_path_error(paths.last(), kind))
            },
        }
    }
}

/// The first shape error among closed subjects, then open subjects, then
/// clips.
pub open spec fn path_error_of(
    closed: Seq<Seq<Point64>>,
    open: Seq<Seq<Point64>>,
    clips: Seq<Seq<Point64>>,
) -> Option<Error> {
    match first_path_error(closed, PathKind::Closed) {
        Some(error) => Some(error),
        None => match first_path_error(open, PathKind::Open) {
            Some(error) => Some(error),
            None => first_path_error(clips, PathKind::Closed),
        },
    }
}

/// The outcome of validating paths against limits: a complexity limit first,
/// then the first shape error.
pub open spec fn validation_of(
    limits: ComplexityLimits,
    closed: Seq<Seq<Point64>>,
    open: Seq<Seq<Point64>>,
    clips: Seq<Seq<Point64>>,
    clip_type: ClipType,
) -> Result<(), Error> {
    let totals = totals_of(closed, open, clips);
    match check_totals(
        limits,
        totals.paths as int,
        totals.vertices as int,
        totals.edge_pairs(clip_type == ClipType::Union),
    ) {
        Err(error) => Err(error),
        Ok(()) => match path_error_of(closed, open, clips) {
            Some(error) => Err(error),
            None => Ok(()),
        },
    }
}

/// The outcome of validating a request.
pub open spec fn request_validation(request: BooleanRequest<'_, Vec<Point64>>) -> Result<(), Error> {
    validation_of(
        request.limits,
        views(request.closed_subjects@),
        views(request.open_subjects@),
        views(request.clips@),
        request.clip_type,
    )
}

fn scan_paths(
    paths: &[Vec<Point64>],
    kind: PathKind,
    open: bool,
    subject: bool,
    complexity: &mut BooleanComplexity,
    validation_error: &mut Option<Error>,
)
    requires
        open ==> kind == PathKind::Open,
    ensures
        *final(complexity) == if open {
            charge_open(*old(complexity), views(paths@))
        } else {
            charge_closed(*old(complexity), views(paths@), subject)
        },
        *final(validation_error) == match *old(validation_error) {
            Some(error) => Some(error),
            None => first_path_error(views(paths@), kind),
        },
{
    let ghost start = *complexity;
    let ghost start_error = *validation_error;
    let mut index: usize = 0;
    while index < paths.len()
        invariant
            index <= paths@.len(),
            open ==> kind == PathKind::Open,
            *complexity == if open {
                charge_open(start, views(paths@).subrange(0, index as int))
            } else {
                charge_closed(start, views(paths@).subrange(0, index as int), subject)
            },
            *validation_error == match start_error {
                Some(error) => Some(error),
                None => first_path_error(views(paths@).subrange(0, index as int), kind),
            },
        decreases paths@.len() - index,
    {
        proof {
            assert(views(paths@).subrange(0, index + 1).drop_last() =~= views(paths@).subrange(0, index as int));
            assert(views(paths@).subrange(0, index + 1).last() == paths@[index as int]@);
        }
        let length = paths[index].len();
        if open {
            complexity.add_open(length);
        } else {
            complexity.add_closed(length, subject);
        }
        if validation_error.is_none() {
            match validate_path64(paths[index].as_slice(), kind) {
                Err(error) => {
                    *validation_error = Some(error);
                },
                Ok(()) => {},
            }
        }
        index += 1;
    }
    proof {
        assert(views(paths@).subrange(0, paths@.len() as int) =~= views(paths@));
    }
}

/// Validates a request's path shapes and complexity before any geometry work.
///
/// A complexity limit takes priority; otherwise the first invalid path (closed
/// subjects, then open subjects, then clips) is reported.
pub fn validate_bounded64(request: &BooleanRequest<'_, Vec<Point64>>) -> (result: Result<(), Error>)
    ensures
        result == request_validation(*request),
{
    let mut validation_error: Option<Error> = None;
    let mut complexity = BooleanComplexity::new();
    scan_paths(request.closed_subjects, PathKind::Closed, false, true, &mut complexity, &mut validation_error);
    scan_paths(request.open_subjects, PathKind::Open, true, true, &mut complexity, &mut validation_error);
    scan_paths(request.clips, PathKind::Closed, false, false, &mut complexity, &mut validation_error);
    let union = match request.clip_type {
        ClipType::Union => true,
        _ => false,
    };
    match complexity.check(request.limits, union) {
        Err(error) => return Err(error),
        Ok(()) => {},
    }
    match validation_error {
        Some(error) => Err(error),
        None => Ok(()),
    }
}

} // verus!

verus! {

/// Executes an exact integer Boolean request.
///
/// The request is validated first (complexity limits, then path shapes);
/// a validation error is returned unchanged. Otherwise the closed rings are
/// computed exactly and open subjects are clipped against the filled
/// regions.
pub fn boolean_op(request: BooleanRequest<'_, Vec<Point64>>) -> (result: Result<BooleanOutput<Vec<Point64>>, Error>)
    ensures
        request_validation(request) matches Err(error) ==> result == Err::<BooleanOutput<Vec<Point64>>, Error>(error),
        request_validation(request) is Ok ==> (result matches Err(error) ==> crate::boolean::kernel_error(error)),
        result matches Ok(output) ==> request_validation(request) is Ok,
        result matches Ok(output) ==> (request.open_subjects@.len() == 0 ==> output.open@.len() == 0),
        result matches Ok(output) ==> crate::boolean::paths_at_least(output.open@, 2),
        (request_validation(request) is Ok && request.open_subjects@.len() == 0 && crate::boolean::closed_result_empty(
            request.closed_subjects@.len(),
            request.clips@.len(),
            request.clip_type,
            request.fill_rule,
        )) ==> (result matches Ok(output) && output.closed@.len() == 0 && output.open@.len() == 0),
        result matches Ok(output) ==> (crate::boolean::closed_result_empty(
            request.closed_subjects@.len(),
            request.clips@.len(),
            request.clip_type,
            request.fill_rule,
        ) ==> output.closed@.len() == 0),
        result matches Ok(output) ==> crate::vertex_origin::rings64_on_inputs(
            output.closed@,
            crate::rings::kept_rings(request.closed_subjects@),
            crate::rings::kept_rings(request.clips@),
        ),
        result matches Ok(output) ==> crate::vertex_origin::lines64_on_open_paths(output.open@, request.open_subjects@),
        (request_validation(request) is Ok && request.open_subjects@.len() == 0 && !(request.closed_subjects@.len() == 0
            && (request.clip_type == ClipType::Intersection || request.clip_type == ClipType::Difference)))
            ==> crate::boolean::cheap_case_result(
            crate::rings::kept_rings(request.closed_subjects@),
            crate::rings::kept_rings(request.clips@),
            request.clip_type,
            request.fill_rule,
            match result {
                Ok(output) => Some(output.closed@),
                Err(_) => None,
            },
        ),
        result matches Ok(output) ==> (!(request.closed_subjects@.len() == 0 && (request.clip_type
            == ClipType::Intersection || request.clip_type == ClipType::Difference))
            ==> crate::boolean::cheap_case_result(
            crate::rings::kept_rings(request.closed_subjects@),
            crate::rings::kept_rings(request.clips@),
            request.clip_type,
            request.fill_rule,
            Some(output.closed@),
        )),
        (request_validation(request) is Ok && request.clips@.len() == 0 && (request.clip_type != ClipType::Union
            || request.closed_subjects@.len() == 0) && crate::boolean::closed_result_empty(
            request.closed_subjects@.len(),
            request.clips@.len(),
            request.clip_type,
            request.fill_rule,
        )) ==> result is Ok,
        result matches Ok(output) ==> (!(request.closed_subjects@.len() == 0 && (request.clip_type
            == ClipType::Intersection || request.clip_type == ClipType::Difference))
            ==> crate::boolean::closed_kernel_result(
            output.closed@,
            crate::rings::kept_rings(request.closed_subjects@),
            crate::rings::kept_rings(request.clips@),
            request.clip_type,
            request.fill_rule,
        )),
        result matches Ok(output) ==> (request.clips@.len() == 0 && (request.clip_type != ClipType::Union
            || request.closed_subjects@.len() == 0) ==> views(output.open@) == crate::open64::unclipped_lines64(
            request.open_subjects@,
            request.clip_type,
        )),
        result matches Ok(output) ==> (crate::open64::open_clip_certifiable64(
            request.open_subjects@,
            request.closed_subjects@,
            request.clips@,
            request.clip_type,
        ) ==> crate::open64::open_clip_result64(
            views(output.open@),
            request.open_subjects@,
            request.closed_subjects@,
            request.clips@,
            request.clip_type,
            request.fill_rule,
        )),
        result matches Ok(output) ==> (request.open_subjects@.len() > 0 ==> crate::boolean::open_lines_result(
            output.open@,
            request.open_subjects@,
            request.closed_subjects@,
            request.clips@,
            request.clip_type,
            request.fill_rule,
        )),
{
    match validate_bounded64(&request) {
        Err(error) => return Err(error),
        Ok(()) => {},
    }
    crate::boolean::boolean_op64(&request)
}


/// What a closed-only Boolean operation with the default limits promises,
/// whatever the fill rule: validation errors come back unchanged, anything
/// else that fails is a kernel error, and success is owed only to valid input.
pub open spec fn closed_operation_outcome(
    subjects: Seq<Seq<Point64>>,
    clips: Seq<Seq<Point64>>,
    clip_type: ClipType,
    fill_rule: FillRule,
    result: Result<Vec<Vec<Point64>>, Error>,
) -> bool {
    let validation = validation_of(ComplexityLimits::default_spec(), subjects, Seq::empty(), clips, clip_type);
    let empty = crate::boolean::closed_result_empty(subjects.len(), clips.len(), clip_type, fill_rule);
    &&& validation matches Err(error) ==> result == Err::<Vec<Vec<Point64>>, Error>(error)
    &&& validation is Ok ==> (result matches Err(error) ==> crate::boolean::kernel_error(error))
    &&& result is Ok ==> validation is Ok
    &&& (validation is Ok && empty) ==> (result matches Ok(rings) && rings@.len() == 0)
    &&& empty ==> (result matches Ok(rings) ==> rings@.len() == 0)
    &&& result matches Ok(rings) ==> crate::vertex_origin::rings64_on_inputs(
        rings@,
        crate::rings::kept_views(subjects),
        crate::rings::kept_views(clips),
    )
    &&& (validation is Ok && !(subjects.len() == 0 && (clip_type == ClipType::Intersection || clip_type
        == ClipType::Difference))) ==> (result matches Ok(rings) ==> crate::boolean::closed_kernel_result(
        rings@,
        crate::rings::kept_views(subjects),
        crate::rings::kept_views(clips),
        clip_type,
        fill_rule,
    ))
    &&& (validation is Ok && !(subjects.len() == 0 && (clip_type == ClipType::Intersection || clip_type
        == ClipType::Difference))) ==> crate::boolean::cheap_case_result(
        crate::rings::kept_views(subjects),
        crate::rings::kept_views(clips),
        clip_type,
        fill_rule,
        match result {
            Ok(rings) => Some(rings@),
            Err(_) => None,
        },
    )
}

/// A closed-subject request with the default limits.
fn closed_request<'a, P>(
    subjects: &'a [P],
    clips: &'a [P],
    clip_type: ClipType,
    fill_rule: FillRule,
) -> (request: BooleanRequest<'a, P>)
    ensures
        request.closed_subjects@ == subjects@,
        request.open_subjects@.len() == 0,
        request.clips@ == clips@,
        request.clip_type == clip_type,
        request.fill_rule == fill_rule,
        request.limits == ComplexityLimits::default_spec(),
{
    BooleanRequest::new(subjects, clips, clip_type, fill_rule)
}

/// The closed rings of an operation on closed paths with the default limits.
pub fn closed_operation(
    subjects: &[Vec<Point64>],
    clips: &[Vec<Point64>],
    clip_type: ClipType,
    fill_rule: FillRule,
) -> (result: Result<Vec<Vec<Point64>>, Error>)
    ensures
        closed_operation_outcome(views(subjects@), views(clips@), clip_type, fill_rule, result),
{
    let request = closed_request(subjects, clips, clip_type, fill_rule);
    proof {
        assert(request.open_subjects@ =~= Seq::<Vec<Point64>>::empty());
        crate::rings::lemma_kept_views(subjects@);
        crate::rings::lemma_kept_views(clips@);
    }
    match boolean_op(request) {
        Ok(output) => Ok(output.closed),
        Err(error) => Err(error),
    }
}

/// Intersects two integer path collections using [`FillRule::EvenOdd`].
pub fn intersection(subjects: &[Vec<Point64>], clips: &[Vec<Point64>]) -> (result: Result<Vec<Vec<Point64>>, Error>)
    ensures
        closed_operation_outcome(views(subjects@), views(clips@), ClipType::Intersection, FillRule::EvenOdd, result),
{
    closed_operation(subjects, clips, ClipType::Intersection, FillRule::EvenOdd)
}

/// Unites two integer path collections using [`FillRule::EvenOdd`].
pub fn union(subjects: &[Vec<Point64>], clips: &[Vec<Point64>]) -> (result: Result<Vec<Vec<Point64>>, Error>)
    ensures
        closed_operation_outcome(views(subjects@), views(clips@), ClipType::Union, FillRule::EvenOdd, result),
{
    closed_operation(subjects, clips, ClipType::Union, FillRule::EvenOdd)
}

/// Subtracts integer `clips` from `subjects` using [`FillRule::EvenOdd`].
pub fn difference(subjects: &[Vec<Point64>], clips: &[Vec<Point64>]) -> (result: Result<Vec<Vec<Point64>>, Error>)
    ensures
        closed_operation_outcome(views(subjects@), views(clips@), ClipType::Difference, FillRule::EvenOdd, result),
{
    closed_operation(subjects, clips, ClipType::Difference, FillRule::EvenOdd)
}

/// Computes the integer symmetric difference using [`FillRule::EvenOdd`].
pub fn xor(subjects: &[Vec<Point64>], clips: &[Vec<Point64>]) -> (result: Result<Vec<Vec<Point64>>, Error>)
    ensures
        closed_operation_outcome(views(subjects@), views(clips@), ClipType::Xor, FillRule::EvenOdd, result),
{
    closed_operation(subjects, clips, ClipType::Xor, FillRule::EvenOdd)
}

/// Intersects two integer rings using [`FillRule::EvenOdd`].
pub fn intersection_path(subject: &Vec<Point64>, clip: &Vec<Point64>) -> (result: Result<Vec<Vec<Point64>>, Error>)
    ensures
        closed_operation_outcome(seq![subject@], seq![clip@], ClipType::Intersection, FillRule::EvenOdd, result),
{
    let subjects = vec![subject.clone()];
    let clips = vec![clip.clone()];
    proof {
        assert(views(subjects@) =~= seq![subject@]);
        assert(views(clips@) =~= seq![clip@]);
    }
    intersection(subjects.as_slice(), clips.as_slice())
}

/// Unites two integer rings using [`FillRule::EvenOdd`].
pub fn union_path(subject: &Vec<Point64>, clip: &Vec<Point64>) -> (result: Result<Vec<Vec<Point64>>, Error>)
    ensures
        closed_operation_outcome(seq![subject@], seq![clip@], ClipType::Union, FillRule::EvenOdd, result),
{
    let subjects = vec![subject.clone()];
    let clips = vec![clip.clone()];
    proof {
        assert(views(subjects@) =~= seq![subject@]);
        assert(views(clips@) =~= seq![clip@]);
    }
    union(subjects.as_slice(), clips.as_slice())
}

/// Subtracts one integer ring from another using [`FillRule::EvenOdd`].
pub fn difference_path(subject: &Vec<Point64>, clip: &Vec<Point64>) -> (result: Result<Vec<Vec<Point64>>, Error>)
    ensures
        closed_operation_outcome(seq![subject@], seq![clip@], ClipType::Difference, FillRule::EvenOdd, result),
{
    let subjects = vec![subject.clone()];
    let clips = vec![clip.clone()];
    proof {
        assert(views(subjects@) =~= seq![subject@]);
        assert(views(clips@) =~= seq![clip@]);
    }
    difference(subjects.as_slice(), clips.as_slice())
}

/// Computes the symmetric difference of two integer rings using
/// [`FillRule::EvenOdd`].
pub fn xor_path(subject: &Vec<Point64>, clip: &Vec<Point64>) -> (result: Result<Vec<Vec<Point64>>, Error>)
    ensures
        closed_operation_outcome(seq![subject@], seq![clip@], ClipType::Xor, FillRule::EvenOdd, result),
{
    let subjects = vec![subject.clone()];
    let clips = vec![clip.clone()];
    proof {
        assert(views(subjects@) =~= seq![subject@]);
        assert(views(clips@) =~= seq![clip@]);
    }
    xor(subjects.as_slice(), clips.as_slice())
}

} // verus!
