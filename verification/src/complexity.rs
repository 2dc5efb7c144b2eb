//! Deterministic budgets for operations that analyze polygon topology.

use vstd::prelude::*;

use crate::error::Error;

verus! {

/// Resources bounded before polygon topology analysis begins.
#[derive(Clone, Copy, Debug, PartialEq, Eq, Structural)]
pub enum ComplexityResource {
    /// Number of input paths.
    Paths,
    /// Total number of input vertices.
    Vertices,
    /// Conservative number of candidate edge pairs checked for intersections.
    EdgePairs,
}

/// Explicit input-complexity limits for polygon topology analysis.
#[derive(Clone, Copy, Debug, PartialEq, Eq, Structural)]
pub struct ComplexityLimits {
    paths: usize,
    vertices: usize,
    edge_pairs: usize,
}

/// `value` clamped to the `usize` range from above.
pub open spec fn saturate(value: int) -> int {
    if value > usize::MAX {
        usize::MAX as int
    } else {
        value
    }
}

fn saturating_mul(left: usize, right: usize) -> (result: usize)
    ensures
        result == saturate(left * right),
{
    match left.checked_mul(right) {
        Some(value) => value,
        None => usize::MAX,
    }
}

/// The candidate edge pairs that a path of `length` vertices adds to those of
/// the paths before it, which hold `vertices_before` vertices in all
/// (saturated as the counters are).
pub open spec fn path_edge_pairs(vertices_before: int, length: int) -> int {
    let cross = saturate(vertices_before * length);
    if length >= 3 {
        saturate(cross + saturate(length * (length - 3)) / 2)
    } else {
        cross
    }
}

/// The saturated totals `(paths, vertices, edge_pairs)` over the first `n`
/// path lengths.
pub open spec fn totals(lengths: Seq<usize>, n: nat) -> (int, int, int)
    decreases n,
{
    if n == 0 {
        (0, 0, 0)
    } else {
        let (paths, vertices, edge_pairs) = totals(lengths, (n - 1) as nat);
        let length = lengths[n - 1] as int;
        (
            saturate(paths + 1),
            saturate(vertices + length),
            saturate(edge_pairs + path_edge_pairs(vertices, length)),
        )
    }
}

/// The result of comparing a required amount with its limit.
pub open spec fn limit_result(resource: ComplexityResource, required: int, limit: int) -> Result<(), Error> {
    if required > limit {
        Err(Error::LimitExceeded { resource, limit: limit as usize, required: required as usize })
    } else {
        Ok(())
    }
}

/// The result of checking the three totals against their limits, in
/// `Paths`, `Vertices`, then `EdgePairs` priority order.
pub open spec fn check_totals(
    limits: ComplexityLimits,
    paths: int,
    vertices: int,
    edge_pairs: int,
) -> Result<(), Error> {
    if paths > limits.spec_max_paths() {
        limit_result(ComplexityResource::Paths, paths, limits.spec_max_paths() as int)
    } else if vertices > limits.spec_max_vertices() {
        limit_result(ComplexityResource::Vertices, vertices, limits.spec_max_vertices() as int)
    } else {
        limit_result(ComplexityResource::EdgePairs, edge_pairs, limits.spec_max_edge_pairs() as int)
    }
}

impl ComplexityLimits {
    /// Maximum number of input paths, as a specification value.
    pub closed spec fn spec_max_paths(self) -> usize {
        self.paths
    }

    /// Maximum total number of input vertices, as a specification value.
    pub closed spec fn spec_max_vertices(self) -> usize {
        self.vertices
    }

    /// Maximum candidate edge pairs, as a specification value.
    pub closed spec fn spec_max_edge_pairs(self) -> usize {
        self.edge_pairs
    }

    /// The default limits: 1 024 paths, 1 000 000 vertices and 4 000 000
    /// candidate edge pairs.
    pub closed spec fn default_spec() -> Self {
        ComplexityLimits { paths: 1_024, vertices: 1_000_000, edge_pairs: 4_000_000 }
    }

    /// A production-oriented starting point for untrusted requests.
    pub fn default_limits() -> (limits: Self)
        ensures
            limits == Self::default_spec(),
            limits.spec_max_paths() == 1_024,
            limits.spec_max_vertices() == 1_000_000,
            limits.spec_max_edge_pairs() == 4_000_000,
    {
        Self::new(1_024, 1_000_000, 4_000_000)
    }

    /// Creates a limit set. A zero limit rejects any use of that resource.
    pub fn new(max_paths: usize, max_vertices: usize, max_edge_pairs: usize) -> (limits: Self)
        ensures
            limits.spec_max_paths() == max_paths,
            limits.spec_max_vertices() == max_vertices,
            limits.spec_max_edge_pairs() == max_edge_pairs,
    {
        ComplexityLimits { paths: max_paths, vertices: max_vertices, edge_pairs: max_edge_pairs }
    }

    /// Maximum number of input paths.
    pub fn max_paths(self) -> (result: usize)
        ensures
            result == self.spec_max_paths(),
    {
        self.paths
    }

    /// Maximum total number of input vertices.
    pub fn max_vertices(self) -> (result: usize)
        ensures
            result == self.spec_max_vertices(),
    {
        self.vertices
    }

    /// Maximum conservative number of candidate intersection edge pairs.
    pub fn max_edge_pairs(self) -> (result: usize)
        ensures
            result == self.spec_max_edge_pairs(),
    {
        self.edge_pairs
    }

    /// Checks path lengths without reading their vertices.
    ///
    /// Returns [`Error::LimitExceeded`] in deterministic `Paths`, `Vertices`,
    /// then `EdgePairs` priority order.
    pub fn check(self, path_lengths: &[usize]) -> (result: Result<(), Error>)
        ensures
            ({
                let (paths, vertices, edge_pairs) = totals(path_lengths@, path_lengths@.len());
                result == check_totals(self, paths, vertices, edge_pairs)
            }),
    {
        let mut paths: usize = 0;
        let mut vertices: usize = 0;
        let mut edge_pairs: usize = 0;
        let mut index: usize = 0;
        while index < path_lengths.len()
            invariant
                index <= path_lengths@.len(),
                (paths as int, vertices as int, edge_pairs as int) == totals(
                    path_lengths@,
                    index as nat,
                ),
            decreases path_lengths@.len() - index,
        {
            let length = path_lengths[index];
            paths = paths.saturating_add(1);
            let cross = saturating_mul(vertices, length);
            let added = if length >= 3 {
                cross.saturating_add(saturating_mul(length, length - 3) / 2)
            } else {
                cross
            };
            edge_pairs = edge_pairs.saturating_add(added);
            vertices = vertices.saturating_add(length);
            index += 1;
        }
        match check_limit(ComplexityResource::Paths, paths, self.paths) {
            Err(error) => return Err(error),
            Ok(()) => {},
        }
        match check_limit(ComplexityResource::Vertices, vertices, self.vertices) {
            Err(error) => return Err(error),
            Ok(()) => {},
        }
        check_limit(ComplexityResource::EdgePairs, edge_pairs, self.edge_pairs)
    }
}

/// Compares a required amount with its limit.
pub fn check_limit(resource: ComplexityResource, required: usize, limit: usize) -> (result: Result<(), Error>)
    ensures
        result == limit_result(resource, required as int, limit as int),
{
    if required > limit {
        Err(Error::LimitExceeded { resource, limit, required })
    } else {
        Ok(())
    }
}

} // verus!

verus! {

/// Running totals for a Boolean request: closed paths (subjects and clips)
/// are charged for every pair of their edges, open subjects only against the
/// filled boundaries that can clip them.
#[derive(Clone, Copy, Debug)]
pub struct BooleanComplexity {
    /// Number of paths so far.
    pub paths: usize,
    /// Total vertices so far.
    pub vertices: usize,
    /// Vertices of closed paths so far.
    pub closed_vertices: usize,
    /// Candidate edge pairs among closed paths so far.
    pub closed_edge_pairs: usize,
    /// Vertices of closed subjects so far.
    pub subject_vertices: usize,
    /// Vertices of clips so far.
    pub clip_vertices: usize,
    /// Vertices of open subjects so far.
    pub open_vertices: usize,
}

impl BooleanComplexity {
    /// The totals before any path.
    pub open spec fn zero() -> Self {
        BooleanComplexity {
            paths: 0,
            vertices: 0,
            closed_vertices: 0,
            closed_edge_pairs: 0,
            subject_vertices: 0,
            clip_vertices: 0,
            open_vertices: 0,
        }
    }

    /// The totals after one more closed path of `length` vertices.
    pub open spec fn with_closed(self, length: int, subject: bool) -> Self {
        BooleanComplexity {
            paths: saturate(self.paths + 1) as usize,
            vertices: saturate(self.vertices + length) as usize,
            closed_vertices: saturate(self.closed_vertices + length) as usize,
            closed_edge_pairs: saturate(
                self.closed_edge_pairs + path_edge_pairs(self.closed_vertices as int, length),
            ) as usize,
            subject_vertices: if subject {
                saturate(self.subject_vertices + length) as usize
            } else {
                self.subject_vertices
            },
            clip_vertices: if subject {
                self.clip_vertices
            } else {
                saturate(self.clip_vertices + length) as usize
            },
            open_vertices: self.open_vertices,
        }
    }

    /// The totals after one more open path of `length` vertices.
    pub open spec fn with_open(self, length: int) -> Self {
        BooleanComplexity {
            paths: saturate(self.paths + 1) as usize,
            vertices: saturate(self.vertices + length) as usize,
            open_vertices: saturate(self.open_vertices + length) as usize,
            ..self
        }
    }

    /// Candidate edge pairs: closed pairs plus open vertices against the
    /// boundary vertices that can clip them (clips, and for a union also the
    /// closed subjects).
    pub open spec fn edge_pairs(self, union: bool) -> int {
        let boundary = if union {
            saturate(self.subject_vertices + self.clip_vertices)
        } else {
            self.clip_vertices as int
        };
        saturate(self.closed_edge_pairs + saturate(self.open_vertices * boundary))
    }

    /// Creates empty totals.
    pub fn new() -> (result: Self)
        ensures
            result == Self::zero(),
    {
        BooleanComplexity {
            paths: 0,
            vertices: 0,
            closed_vertices: 0,
            closed_edge_pairs: 0,
            subject_vertices: 0,
            clip_vertices: 0,
            open_vertices: 0,
        }
    }

    /// Adds a closed path (a subject when `subject`, a clip otherwise).
    pub fn add_closed(&mut self, length: usize, subject: bool)
        ensures
            *final(self) == old(self).with_closed(length as int, subject),
    {
        let cross = saturating_mul(self.closed_vertices, length);
        let added = if length >= 3 {
            cross.saturating_add(saturating_mul(length, length - 3) / 2)
        } else {
            cross
        };
        self.paths = self.paths.saturating_add(1);
        self.vertices = self.vertices.saturating_add(length);
        self.closed_edge_pairs = self.closed_edge_pairs.saturating_add(added);
        self.closed_vertices = self.closed_vertices.saturating_add(length);
        if subject {
            self.subject_vertices = self.subject_vertices.saturating_add(length);
        } else {
            self.clip_vertices = self.clip_vertices.saturating_add(length);
        }
    }

    /// Adds an open subject path.
    pub fn add_open(&mut self, length: usize)
        ensures
            *final(self) == old(self).with_open(length as int),
    {
        self.paths = self.paths.saturating_add(1);
        self.vertices = self.vertices.saturating_add(length);
        self.open_vertices = self.open_vertices.saturating_add(length);
    }

    /// Checks the totals against `limits` in `Paths`, `Vertices`, then
    /// `EdgePairs` priority order.
    pub fn check(&self, limits: ComplexityLimits, union: bool) -> (result: Result<(), Error>)
        ensures
            result == check_totals(
                limits,
                self.paths as int,
                self.vertices as int,
                self.edge_pairs(union),
            ),
    {
        let boundary = if union {
            self.subject_vertices.saturating_add(self.clip_vertices)
        } else {
            self.clip_vertices
        };
        let edge_pairs = self.closed_edge_pairs.saturating_add(saturating_mul(self.open_vertices, boundary));
        match check_limit(ComplexityResource::Paths, self.paths, limits.max_paths()) {
            Err(error) => return Err(error),
            Ok(()) => {},
        }
        match check_limit(ComplexityResource::Vertices, self.vertices, limits.max_vertices()) {
            Err(error) => return Err(error),
            Ok(()) => {},
        }
        check_limit(ComplexityResource::EdgePairs, edge_pairs, limits.max_edge_pairs())
    }
}

/// Whether every limit of `larger` is at least the matching limit of
/// `smaller`.
pub open spec fn limits_at_least(larger: ComplexityLimits, smaller: ComplexityLimits) -> bool {
    &&& larger.spec_max_paths() >= smaller.spec_max_paths()
    &&& larger.spec_max_vertices() >= smaller.spec_max_vertices()
    &&& larger.spec_max_edge_pairs() >= smaller.spec_max_edge_pairs()
}

/// Work that fits within some limits fits within any larger limits, and
/// limits that are all at least the requirements never reject.
pub proof fn law_limits_monotone(smaller: ComplexityLimits, larger: ComplexityLimits, paths: int, vertices: int, edge_pairs: int)
    requires
        limits_at_least(larger, smaller),
    ensures
        check_totals(smaller, paths, vertices, edge_pairs) is Ok ==> check_totals(larger, paths, vertices, edge_pairs) is Ok,
        (paths <= smaller.spec_max_paths() && vertices <= smaller.spec_max_vertices() && edge_pairs
            <= smaller.spec_max_edge_pairs()) <==> check_totals(smaller, paths, vertices, edge_pairs) is Ok,
{
}

} // verus!
