//! Noding of source edges, merging into an arrangement, face labelling by
//! winding propagation, and tracing of the result rings.

use vstd::prelude::*;

use crate::arrangement::{
    Edge, canonicalize_ring, crossing_parameters, exact_area2, lemma_order_covers, lemma_point_order_chain,
    lemma_present_in_unit_endpoints, point_at, point_order, qp_point_at, rationals_wf, segments_intersect, segments_on_one_line, sort_paths, sort_unique,
    split_edge_pair, unit_endpoints, qbox_touch, segment_qbox, segment_parameter, q_end_parameter,
};
use crate::error::Error;
use crate::exact::{
    ExactPoint, QPoint, edge_count, lemma_qp_same_transitive, paths_wf, paths_winding, paths_winding_at, points_wf, qp_on_segment, qp_same, qp_sub,
};
use crate::overlay::{
    ArrangementEdge, AtomicEdge, DirectedEdge, arrangement_wf, atomic_wf, compare_angle,
    directed_wf, edges_wf, identity_order, parameter_lists_wf, short_circuit,
};
use crate::rational::{Q, Rational, q_add, q_less, q_mul, q_same, q_sub};
use crate::request::{ClipType, FillRule};
use crate::sorting::{adjacent_in_order, decides, no_order, sort_indices_by};
use crate::winding::{
    WindingPair, apply_operation, apply_operation_spec, operation_from_windings, winding_contains,
    winding_contains_spec,
};

verus! {

/// The maximum number of times a face sample is moved closer to its edge.
pub const MAX_FACE_SAMPLE_REFINEMENTS: usize = 24;

/// Whether `point` is the point at one of the parameters of one of the
/// source edges.
pub open spec fn piece_point(edges: Seq<Edge>, parameters: Seq<Vec<Rational>>, point: QPoint) -> bool {
    exists|e: int, j: int|
        0 <= e < edges.len() && 0 <= j < parameters[e]@.len() && point == #[trigger] qp_point_at(
            edges[e].start.qp(),
            edges[e].end.qp(),
            parameters[e]@[j].q(),
        )
}

/// Some atomic edge of the side `subject` starts at parameter `t` of `edge`.
pub open spec fn piece_at(atomic: Seq<AtomicEdge>, edge: Edge, subject: bool, t: Q) -> bool {
    exists|k: int|
        0 <= k < atomic.len() && (#[trigger] atomic[k]).subject == subject && atomic[k].start.qp() == qp_point_at(
            edge.start.qp(),
            edge.end.qp(),
            t,
        )
}

/// Parameter `j` of edge `e`, or a parameter of equal value, starts an
/// atomic edge of the edge's side.
pub open spec fn parameter_split(
    atomic: Seq<AtomicEdge>,
    edges: Seq<Edge>,
    parameters: Seq<Vec<Rational>>,
    subjects: Seq<bool>,
    e: int,
    j: int,
) -> bool {
    exists|j2: int|
        0 <= j2 < parameters[e]@.len() && q_same((#[trigger] parameters[e]@[j2]).q(), parameters[e]@[j].q())
            && piece_at(atomic, edges[e], subjects[e], parameters[e]@[j2].q())
}

proof fn lemma_piece_at_grows(before: Seq<AtomicEdge>, after: Seq<AtomicEdge>, edge: Edge, subject: bool, t: Q)
    requires
        before.len() <= after.len(),
        forall|k: int| 0 <= k < before.len() ==> #[trigger] after[k] == before[k],
        piece_at(before, edge, subject, t),
    ensures
        piece_at(after, edge, subject, t),
{
    let k = choose|k: int|
        0 <= k < before.len() && (#[trigger] before[k]).subject == subject && before[k].start.qp() == qp_point_at(
            edge.start.qp(),
            edge.end.qp(),
            t,
        );
    assert(after[k] == before[k]);
}

proof fn lemma_split_grows(
    before: Seq<AtomicEdge>,
    after: Seq<AtomicEdge>,
    edges: Seq<Edge>,
    parameters: Seq<Vec<Rational>>,
    subjects: Seq<bool>,
    e: int,
    j: int,
)
    requires
        before.len() <= after.len(),
        forall|k: int| 0 <= k < before.len() ==> #[trigger] after[k] == before[k],
        parameter_split(before, edges, parameters, subjects, e, j),
    ensures
        parameter_split(after, edges, parameters, subjects, e, j),
{
    let j2 = choose|j2: int|
        0 <= j2 < parameters[e]@.len() && q_same((#[trigger] parameters[e]@[j2]).q(), parameters[e]@[j].q())
            && piece_at(before, edges[e], subjects[e], parameters[e]@[j2].q());
    lemma_piece_at_grows(before, after, edges[e], subjects[e], parameters[e]@[j2].q());
}

/// Splits each proper source edge at its sorted, distinct parameters.
#[verifier::spinoff_prover]
pub fn split_source_edges(
    edges: &Vec<Edge>,
    parameters: &Vec<Vec<Rational>>,
    subjects: &Vec<bool>,
) -> (atomic: Vec<AtomicEdge>)
    requires
        edges_wf(edges@),
        parameter_lists_wf(parameters@),
        parameters@.len() == edges@.len(),
        subjects@.len() == edges@.len(),
    ensures
        atomic_wf(atomic@),
        forall|i: int| 0 <= i < atomic@.len() ==> !crate::exact::qp_same(
            (#[trigger] atomic@[i]).start.qp(),
            atomic@[i].end.qp(),
        ),
        forall|i: int|
            0 <= i < atomic@.len() ==> piece_point(edges@, parameters@, (#[trigger] atomic@[i]).start.qp())
                && piece_point(edges@, parameters@, atomic@[i].end.qp()),
        forall|e: int, j: int, j2: int|
            0 <= e < edges@.len() && 0 <= j < parameters@[e]@.len() && 0 <= j2 < parameters@[e]@.len() && q_less(
                (#[trigger] parameters@[e]@[j]).q(),
                (#[trigger] parameters@[e]@[j2]).q(),
            ) ==> parameter_split(atomic@, edges@, parameters@, subjects@, e, j),
{
    let mut atomic: Vec<AtomicEdge> = Vec::new();
    let mut index: usize = 0;
    while index < edges.len()
        invariant
            edges_wf(edges@),
            parameter_lists_wf(parameters@),
            parameters@.len() == edges@.len(),
            subjects@.len() == edges@.len(),
            index <= edges@.len(),
            atomic_wf(atomic@),
            forall|i: int| 0 <= i < atomic@.len() ==> !crate::exact::qp_same(
                (#[trigger] atomic@[i]).start.qp(),
                atomic@[i].end.qp(),
            ),
            forall|i: int|
                0 <= i < atomic@.len() ==> piece_point(edges@, parameters@, (#[trigger] atomic@[i]).start.qp())
                    && piece_point(edges@, parameters@, atomic@[i].end.qp()),
            forall|e: int, j: int, j2: int|
                0 <= e < index && 0 <= j < parameters@[e]@.len() && 0 <= j2 < parameters@[e]@.len() && q_less(
                    (#[trigger] parameters@[e]@[j]).q(),
                    (#[trigger] parameters@[e]@[j2]).q(),
                ) ==> parameter_split(atomic@, edges@, parameters@, subjects@, e, j),
        decreases edges@.len() - index,
    {
        proof {
            assert(edges@[index as int].wf());
            assert(rationals_wf(parameters@[index as int]@));
        }
        let edge = &edges[index];
        let values = sort_unique(&parameters[index]);
        let ghost outer_before = atomic@;
        let mut pair: usize = 1;
        while pair < values.len()
            invariant
                edge.wf(),
                index < edges@.len(),
                subjects@.len() == edges@.len(),
                rationals_wf(values@),
                1 <= pair <= values@.len() || values@.len() == 0,
                atomic_wf(atomic@),
                forall|i: int| 0 <= i < atomic@.len() ==> !crate::exact::qp_same(
                    (#[trigger] atomic@[i]).start.qp(),
                    atomic@[i].end.qp(),
                ),
                edges_wf(edges@),
                parameters@.len() == edges@.len(),
                edge == edges@[index as int],
                forall|k: int|
                    0 <= k < values@.len() ==> #[trigger] crate::arrangement::value_listed(
                        parameters@[index as int]@,
                        values@[k],
                    ),
                forall|i: int|
                    0 <= i < atomic@.len() ==> piece_point(edges@, parameters@, (#[trigger] atomic@[i]).start.qp())
                        && piece_point(edges@, parameters@, atomic@[i].end.qp()),
                forall|k: int| 0 < k < values@.len() ==> (#[trigger] values@[k - 1]).less(values@[k]),
                atomic@.len() >= outer_before.len(),
                forall|k: int| 0 <= k < outer_before.len() ==> #[trigger] atomic@[k] == outer_before[k],
                forall|a: int| 0 <= a < pair - 1 ==> piece_at(atomic@, *edge, subjects@[index as int], (#[trigger] values@[a]).q()),
            decreases values@.len() - pair,
        {
            proof {
                assert(values@[pair - 1].wf());
                assert(values@[pair as int].wf());
            }
            let start = point_at(&edge.start, &edge.end, &values[pair - 1]);
            let end = point_at(&edge.start, &edge.end, &values[pair]);
            // Distinct sorted parameters on a proper edge never collapse;
            // the check keeps the arrangement's edges proper by construction.
            proof {
                let e = index as int;
                assert(crate::arrangement::value_listed(parameters@[e]@, values@[pair - 1]));
                assert(crate::arrangement::value_listed(parameters@[e]@, values@[pair as int]));
                let j0 = choose|j: int| 0 <= j < parameters@[e]@.len() && (#[trigger] parameters@[e]@[j]).q() == values@[pair - 1].q();
                let j1 = choose|j: int| 0 <= j < parameters@[e]@.len() && (#[trigger] parameters@[e]@[j]).q() == values@[pair as int].q();
                assert(start.qp() == qp_point_at(edges@[e].start.qp(), edges@[e].end.qp(), parameters@[e]@[j0].q()));
                assert(end.qp() == qp_point_at(edges@[e].start.qp(), edges@[e].end.qp(), parameters@[e]@[j1].q()));
                assert(piece_point(edges@, parameters@, start.qp()));
                assert(piece_point(edges@, parameters@, end.qp()));
            }
            let ghost before = atomic@;
            proof {
                assert(values@[pair - 1].less(values@[pair as int]));
                crate::arrangement::lemma_points_apart(edge.start, edge.end, values@[pair - 1].q(), values@[pair as int].q());
            }
            if !start.equals(&end) {
                atomic.push(AtomicEdge { start, end, subject: subjects[index] });
                proof {
                    assert forall|i: int|
                        0 <= i < atomic@.len() implies piece_point(edges@, parameters@, (#[trigger] atomic@[i]).start.qp())
                        && piece_point(edges@, parameters@, atomic@[i].end.qp()) by {
                        if i < before.len() {
                            assert(atomic@[i] == before[i]);
                        }
                    }
                }
            }
            proof {
                assert forall|a: int| 0 <= a < pair implies piece_at(atomic@, *edge, subjects@[index as int], (#[trigger] values@[a]).q()) by {
                    if a < pair - 1 {
                        lemma_piece_at_grows(before, atomic@, *edge, subjects@[index as int], values@[a].q());
                    } else {
                        assert(atomic@[before.len() as int].start.qp() == qp_point_at(edge.start.qp(), edge.end.qp(), values@[a].q()));
                    }
                }
            }
            pair += 1;
        }
        proof {
            let e = index as int;
            assert forall|e2: int, j: int, j2: int|
                0 <= e2 < index + 1 && 0 <= j < parameters@[e2]@.len() && 0 <= j2 < parameters@[e2]@.len() && q_less(
                    (#[trigger] parameters@[e2]@[j]).q(),
                    (#[trigger] parameters@[e2]@[j2]).q(),
                ) implies parameter_split(atomic@, edges@, parameters@, subjects@, e2, j) by {
                if e2 < index {
                    lemma_split_grows(outer_before, atomic@, edges@, parameters@, subjects@, e2, j);
                } else {
                    let pj = parameters@[e]@[j];
                    let pj2 = parameters@[e]@[j2];
                    assert(rationals_wf(parameters@[e]@));
                    assert(pj.wf() && pj2.wf());
                    assert(crate::arrangement::value_present(values@, pj));
                    assert(crate::arrangement::value_present(values@, pj2));
                    let a = choose|a: int| 0 <= a < values@.len() && (#[trigger] values@[a]).same(pj);
                    let b = choose|b: int| 0 <= b < values@.len() && (#[trigger] values@[b]).same(pj2);
                    assert(values@[a].wf() && values@[b].wf());
                    crate::arrangement::lemma_less_same(values@[a], pj, values@[b], pj2);
                    if b < a {
                        crate::arrangement::lemma_rising_values(values@, b, a);
                        crate::arrangement::lemma_less_same(values@[b], values@[b], values@[a], values@[a]);
                    }
                    assert(a < b);
                    assert(piece_at(atomic@, *edge, subjects@[e], values@[a].q()));
                    assert(crate::arrangement::value_listed(parameters@[e]@, values@[a]));
                    let j3 = choose|j3: int| 0 <= j3 < parameters@[e]@.len() && (#[trigger] parameters@[e]@[j3]).q() == values@[a].q();
                    assert(q_same(parameters@[e]@[j3].q(), pj.q()));
                    assert(piece_at(atomic@, edges@[e], subjects@[e], parameters@[e]@[j3].q()));
                }
            }
        }
        index += 1;
    }
    atomic
}

/// An atomic edge oriented from its smaller to its larger endpoint.
struct OrientedEdge {
    low: ExactPoint,
    high: ExactPoint,
    delta: i128,
    subject: bool,
}

spec fn oriented_wf(edges: Seq<OrientedEdge>) -> bool {
    forall|i: int| 0 <= i < edges.len() ==> (#[trigger] edges[i]).low.wf() && edges[i].high.wf()
        && (edges[i].delta == 1 || edges[i].delta == -1)
}

/// Whether some atomic edge runs from `start` to `end` or from `end` to
/// `start`.
pub open spec fn along_atomic(atomic: Seq<AtomicEdge>, start: QPoint, end: QPoint) -> bool {
    exists|i: int|
        0 <= i < atomic.len() && ((#[trigger] atomic[i]).start.qp() == start && atomic[i].end.qp() == end
            || atomic[i].start.qp() == end && atomic[i].end.qp() == start)
}

/// The lexicographic order of two edges given by their endpoints: by first
/// endpoint, then by second.
pub open spec fn edge_order(a_start: ExactPoint, a_end: ExactPoint, b_start: ExactPoint, b_end: ExactPoint) -> int {
    if point_order(a_start, b_start) != 0 {
        point_order(a_start, b_start)
    } else {
        point_order(a_end, b_end)
    }
}

proof fn lemma_edge_order(
    a_start: ExactPoint,
    a_end: ExactPoint,
    b_start: ExactPoint,
    b_end: ExactPoint,
    c_start: ExactPoint,
    c_end: ExactPoint,
)
    requires
        a_start.wf(),
        a_end.wf(),
        b_start.wf(),
        b_end.wf(),
        c_start.wf(),
        c_end.wf(),
    ensures
        edge_order(a_start, a_end, b_start, b_end) == -edge_order(b_start, b_end, a_start, a_end),
        edge_order(a_start, a_end, b_start, b_end) < 0 && edge_order(b_start, b_end, c_start, c_end) < 0
            ==> edge_order(a_start, a_end, c_start, c_end) < 0,
        edge_order(a_start, a_end, b_start, b_end) <= 0 && edge_order(b_start, b_end, c_start, c_end) <= 0
            ==> edge_order(a_start, a_end, c_start, c_end) <= 0,
        edge_order(a_start, a_end, b_start, b_end) <= 0 && edge_order(b_start, b_end, c_start, c_end) < 0
            ==> edge_order(a_start, a_end, c_start, c_end) < 0,
        edge_order(a_start, a_end, b_start, b_end) < 0 && edge_order(b_start, b_end, c_start, c_end) <= 0
            ==> edge_order(a_start, a_end, c_start, c_end) < 0,
        qp_same(a_start.qp(), b_start.qp()) && qp_same(a_end.qp(), b_end.qp()) ==> edge_order(
            a_start,
            a_end,
            c_start,
            c_end,
        ) == edge_order(b_start, b_end, c_start, c_end),
        edge_order(a_start, a_end, b_start, b_end) == 0 <==> qp_same(a_start.qp(), b_start.qp()) && qp_same(
            a_end.qp(),
            b_end.qp(),
        ),
{
    lemma_point_order_chain(a_start, b_start, c_start);
    lemma_point_order_chain(a_end, b_end, c_end);
}

/// An edge that does not come before `prev`, and differs from `last`, which
/// equals `prev`, comes after `last`.
proof fn lemma_next_in_order(
    last_start: ExactPoint,
    last_end: ExactPoint,
    prev_start: ExactPoint,
    prev_end: ExactPoint,
    next_start: ExactPoint,
    next_end: ExactPoint,
)
    requires
        last_start.wf(),
        last_end.wf(),
        prev_start.wf(),
        prev_end.wf(),
        next_start.wf(),
        next_end.wf(),
        qp_same(last_start.qp(), prev_start.qp()),
        qp_same(last_end.qp(), prev_end.qp()),
        !(edge_order(next_start, next_end, prev_start, prev_end) < 0),
        !(qp_same(last_start.qp(), next_start.qp()) && qp_same(last_end.qp(), next_end.qp())),
    ensures
        edge_order(last_start, last_end, next_start, next_end) < 0,
{
    lemma_edge_order(next_start, next_end, prev_start, prev_end, prev_start, prev_end);
    lemma_edge_order(last_start, last_end, prev_start, prev_end, next_start, next_end);
    lemma_edge_order(last_start, last_end, next_start, next_end, next_start, next_end);
}

/// The lexicographically smaller endpoint of an atomic edge (its end when
/// the endpoints are equal).
pub open spec fn atomic_low(edge: AtomicEdge) -> ExactPoint {
    if point_order(edge.start, edge.end) < 0 {
        edge.start
    } else {
        edge.end
    }
}

/// The other endpoint of an atomic edge.
pub open spec fn atomic_high(edge: AtomicEdge) -> ExactPoint {
    if point_order(edge.start, edge.end) < 0 {
        edge.end
    } else {
        edge.start
    }
}

/// The winding change that an atomic edge carries across the merged edge
/// `low -> high`, for subjects or for clips: 1 when it runs from `low` to
/// `high`, -1 when it runs back, 0 when it lies elsewhere or belongs to the
/// other side.
pub open spec fn atomic_change(edge: AtomicEdge, low: ExactPoint, high: ExactPoint, subject: bool) -> int {
    if edge.subject == subject && qp_same(atomic_low(edge).qp(), low.qp()) && qp_same(
        atomic_high(edge).qp(),
        high.qp(),
    ) {
        if point_order(edge.start, edge.end) < 0 {
            1
        } else {
            -1
        }
    } else {
        0
    }
}

/// The summed change of the first `n` atomic edges across `low -> high`.
pub open spec fn atomic_total(edges: Seq<AtomicEdge>, low: ExactPoint, high: ExactPoint, subject: bool, n: nat) -> int
    decreases n,
{
    if n == 0 {
        0
    } else {
        atomic_total(edges, low, high, subject, (n - 1) as nat) + atomic_change(edges[n - 1], low, high, subject)
    }
}

/// Adds the change of the atomic edge at an index.
spec fn change_step(edges: Seq<AtomicEdge>, low: ExactPoint, high: ExactPoint, subject: bool) -> spec_fn(int, usize) -> int {
    |total: int, i: usize| total + atomic_change(edges[i as int], low, high, subject)
}

/// Each oriented edge is its atomic edge, lowest endpoint first.
spec fn oriented_from(oriented: Seq<OrientedEdge>, atomic: Seq<AtomicEdge>) -> bool {
    &&& oriented.len() <= atomic.len()
    &&& forall|k: int|
        0 <= k < oriented.len() ==> (#[trigger] oriented[k]).low.qp() == atomic_low(atomic[k]).qp()
            && oriented[k].high.qp() == atomic_high(atomic[k]).qp() && oriented[k].subject == atomic[k].subject
            && oriented[k].delta == (if point_order(atomic[k].start, atomic[k].end) < 0 {
            1int
        } else {
            -1int
        })
}

/// No adjacent pair of the order is out of the edges' lexicographic order.
spec fn sorted_adjacent(oriented: Seq<OrientedEdge>, order: Seq<usize>) -> bool {
    forall|k: int|
        0 < k < order.len() ==> !(edge_order(
            oriented[#[trigger] order[k] as int].low,
            oriented[order[k] as int].high,
            oriented[order[k - 1] as int].low,
            oriented[order[k - 1] as int].high,
        ) < 0)
}

/// In an adjacently sorted order, every earlier edge comes no later.
proof fn lemma_sorted_pairs(oriented: Seq<OrientedEdge>, order: Seq<usize>, p: int, q: int)
    requires
        oriented_wf(oriented),
        forall|k: int| 0 <= k < order.len() ==> #[trigger] order[k] < oriented.len(),
        sorted_adjacent(oriented, order),
        0 <= p <= q < order.len(),
    ensures
        edge_order(
            oriented[order[p] as int].low,
            oriented[order[p] as int].high,
            oriented[order[q] as int].low,
            oriented[order[q] as int].high,
        ) <= 0,
    decreases q - p,
{
    let a = oriented[order[p] as int];
    let c = oriented[order[q] as int];
    assert(order[p] < oriented.len() && order[q] < oriented.len());
    if p == q {
        lemma_edge_order(a.low, a.high, a.low, a.high, a.low, a.high);
    } else {
        lemma_sorted_pairs(oriented, order, p, q - 1);
        let b = oriented[order[q - 1] as int];
        assert(order[q - 1] < oriented.len());
        assert(!(edge_order(c.low, c.high, b.low, b.high) < 0));
        lemma_edge_order(c.low, c.high, b.low, b.high, b.low, b.high);
        lemma_edge_order(a.low, a.high, b.low, b.high, c.low, c.high);
    }
}

/// Indices whose edges carry no change add nothing.
proof fn lemma_zero_changes(
    edges: Seq<AtomicEdge>,
    indices: Seq<usize>,
    low: ExactPoint,
    high: ExactPoint,
    subject: bool,
    m: int,
    n: int,
)
    requires
        0 <= m <= n <= indices.len(),
        forall|q: int| m <= q < n ==> atomic_change(edges[#[trigger] indices[q] as int], low, high, subject) == 0,
    ensures
        indices.take(n).fold_left(0, change_step(edges, low, high, subject)) == indices.take(m).fold_left(
            0,
            change_step(edges, low, high, subject),
        ),
    decreases n - m,
{
    if n > m {
        lemma_zero_changes(edges, indices, low, high, subject, m, n - 1);
        assert(indices.take(n).drop_last() =~= indices.take(n - 1));
    }
}

/// Folding the identity order sums the changes of the first edges.
proof fn lemma_identity_total(
    edges: Seq<AtomicEdge>,
    identity: Seq<usize>,
    low: ExactPoint,
    high: ExactPoint,
    subject: bool,
    n: int,
)
    requires
        0 <= n <= identity.len(),
        forall|k: int| 0 <= k < identity.len() ==> #[trigger] identity[k] == k,
    ensures
        identity.take(n).fold_left(0, change_step(edges, low, high, subject)) == atomic_total(
            edges,
            low,
            high,
            subject,
            n as nat,
        ),
    decreases n,
{
    if n > 0 {
        lemma_identity_total(edges, identity, low, high, subject, n - 1);
        assert(identity.take(n).drop_last() =~= identity.take(n - 1));
        assert(identity[n - 1] == n - 1);
    }
}

/// The summed changes do not depend on the order of the indices.
proof fn lemma_permuted_total(
    edges: Seq<AtomicEdge>,
    order: Seq<usize>,
    identity: Seq<usize>,
    low: ExactPoint,
    high: ExactPoint,
    subject: bool,
)
    requires
        order.to_multiset() == identity.to_multiset(),
        forall|k: int| 0 <= k < identity.len() ==> #[trigger] identity[k] == k,
        identity.len() == edges.len(),
    ensures
        order.fold_left(0, change_step(edges, low, high, subject)) == atomic_total(
            edges,
            low,
            high,
            subject,
            edges.len(),
        ),
{
    let f = change_step(edges, low, high, subject);
    assert(vstd::seq_lib::commutative_foldl(f)) by {
        assert forall|x: usize, y: usize, v: int| #[trigger] f(f(v, x), y) == f(f(v, y), x) by {}
    }
    vstd::seq_lib::lemma_fold_left_permutation(order, identity, f, 0);
    lemma_identity_total(edges, identity, low, high, subject, identity.len() as int);
    assert(identity.take(identity.len() as int) =~= identity);
}

/// Equal merged endpoints give equal totals.
proof fn lemma_total_same_key(
    edges: Seq<AtomicEdge>,
    low: ExactPoint,
    high: ExactPoint,
    other_low: ExactPoint,
    other_high: ExactPoint,
    subject: bool,
    n: nat,
)
    requires
        atomic_wf(edges),
        n <= edges.len(),
        low.wf(),
        high.wf(),
        other_low.wf(),
        other_high.wf(),
        qp_same(low.qp(), other_low.qp()),
        qp_same(high.qp(), other_high.qp()),
    ensures
        atomic_total(edges, low, high, subject, n) == atomic_total(edges, other_low, other_high, subject, n),
    decreases n,
{
    if n > 0 {
        lemma_total_same_key(edges, low, high, other_low, other_high, subject, (n - 1) as nat);
        let e = edges[n - 1];
        assert(e.start.wf() && e.end.wf());
        lemma_qp_same_symmetric(low.qp(), other_low.qp());
        lemma_qp_same_symmetric(high.qp(), other_high.qp());
        if qp_same(atomic_low(e).qp(), low.qp()) {
            lemma_qp_same_transitive(atomic_low(e).qp(), low.qp(), other_low.qp());
        }
        if qp_same(atomic_low(e).qp(), other_low.qp()) {
            lemma_qp_same_transitive(atomic_low(e).qp(), other_low.qp(), low.qp());
        }
        if qp_same(atomic_high(e).qp(), high.qp()) {
            lemma_qp_same_transitive(atomic_high(e).qp(), high.qp(), other_high.qp());
        }
        if qp_same(atomic_high(e).qp(), other_high.qp()) {
            lemma_qp_same_transitive(atomic_high(e).qp(), other_high.qp(), high.qp());
        }
    }
}

/// Before the first edge of a group, no edge of the sorted order carries a
/// change across the group's edge.
proof fn lemma_prefix_zero(
    atomic: Seq<AtomicEdge>,
    oriented: Seq<OrientedEdge>,
    order: Seq<usize>,
    position: int,
    subject: bool,
)
    requires
        oriented_wf(oriented),
        oriented_from(oriented, atomic),
        forall|k: int| 0 <= k < order.len() ==> #[trigger] order[k] < oriented.len(),
        sorted_adjacent(oriented, order),
        0 <= position < order.len(),
        position > 0 ==> edge_order(
            oriented[order[position - 1] as int].low,
            oriented[order[position - 1] as int].high,
            oriented[order[position] as int].low,
            oriented[order[position] as int].high,
        ) < 0,
    ensures
        order.take(position).fold_left(
            0,
            change_step(atomic, oriented[order[position] as int].low, oriented[order[position] as int].high, subject),
        ) == 0,
{
    let first = oriented[order[position] as int];
    assert(order[position] < oriented.len());
    assert forall|q: int| 0 <= q < position implies atomic_change(
        atomic[#[trigger] order[q] as int],
        first.low,
        first.high,
        subject,
    ) == 0 by {
        let e = oriented[order[q] as int];
        let last = oriented[order[position - 1] as int];
        assert(order[q] < oriented.len() && order[position - 1] < oriented.len());
        lemma_sorted_pairs(oriented, order, q, position - 1);
        lemma_edge_order(e.low, e.high, last.low, last.high, first.low, first.high);
        lemma_edge_order(e.low, e.high, first.low, first.high, first.low, first.high);
    }
    lemma_zero_changes(atomic, order, first.low, first.high, subject, 0, position);
}

/// After a group, no edge of the sorted order carries a change across the
/// group's edge.
proof fn lemma_suffix_zero(
    atomic: Seq<AtomicEdge>,
    oriented: Seq<OrientedEdge>,
    order: Seq<usize>,
    group_end: int,
    first: OrientedEdge,
    subject: bool,
)
    requires
        oriented_wf(oriented),
        oriented_from(oriented, atomic),
        forall|k: int| 0 <= k < order.len() ==> #[trigger] order[k] < oriented.len(),
        sorted_adjacent(oriented, order),
        0 <= group_end <= order.len(),
        first.low.wf(),
        first.high.wf(),
        group_end < order.len() ==> edge_order(
            first.low,
            first.high,
            oriented[order[group_end] as int].low,
            oriented[order[group_end] as int].high,
        ) < 0,
    ensures
        order.take(order.len() as int).fold_left(0, change_step(atomic, first.low, first.high, subject))
            == order.take(group_end).fold_left(0, change_step(atomic, first.low, first.high, subject)),
{
    assert forall|q: int| group_end <= q < order.len() implies atomic_change(
        atomic[#[trigger] order[q] as int],
        first.low,
        first.high,
        subject,
    ) == 0 by {
        let next = oriented[order[group_end] as int];
        let e = oriented[order[q] as int];
        assert(order[q] < oriented.len() && order[group_end] < oriented.len());
        lemma_sorted_pairs(oriented, order, group_end, q);
        lemma_edge_order(first.low, first.high, next.low, next.high, e.low, e.high);
        lemma_edge_order(e.low, e.high, first.low, first.high, first.low, first.high);
    }
    lemma_zero_changes(atomic, order, first.low, first.high, subject, group_end, order.len() as int);
}

proof fn lemma_qp_same_symmetric(a: QPoint, b: QPoint)
    requires
        qp_same(a, b),
    ensures
        qp_same(b, a),
{
}

/// Some merged edge runs between points equal to `low` and `high`.
pub open spec fn edge_listed(edges: Seq<ArrangementEdge>, low: ExactPoint, high: ExactPoint) -> bool {
    exists|k: int|
        0 <= k < edges.len() && qp_same((#[trigger] edges[k]).start.qp(), low.qp()) && qp_same(
            edges[k].end.qp(),
            high.qp(),
        )
}

/// Each merged edge carries the summed changes of the atomic edges across
/// it, for subjects and for clips.
pub open spec fn merged_totals(edges: Seq<ArrangementEdge>, atomic: Seq<AtomicEdge>) -> bool {
    forall|k: int|
        0 <= k < edges.len() ==> (#[trigger] edges[k]).subject_delta == atomic_total(
            atomic,
            edges[k].start,
            edges[k].end,
            true,
            atomic.len(),
        ) && edges[k].clip_delta == atomic_total(atomic, edges[k].start, edges[k].end, false, atomic.len())
}

/// Every atomic edge whose summed changes do not cancel lies along a merged
/// edge.
pub open spec fn merged_covers(edges: Seq<ArrangementEdge>, atomic: Seq<AtomicEdge>) -> bool {
    forall|i: int|
        0 <= i < atomic.len() && (atomic_total(
            atomic,
            atomic_low(#[trigger] atomic[i]),
            atomic_high(atomic[i]),
            true,
            atomic.len(),
        ) != 0 || atomic_total(atomic, atomic_low(atomic[i]), atomic_high(atomic[i]), false, atomic.len()) != 0)
            ==> edge_listed(edges, atomic_low(atomic[i]), atomic_high(atomic[i]))
}

/// The changes of all atomic edges cancel along every atomic edge, for
/// subjects and for clips.
pub open spec fn atomic_cancels(atomic: Seq<AtomicEdge>) -> bool {
    forall|i: int|
        0 <= i < atomic.len() ==> atomic_total(
            atomic,
            atomic_low(#[trigger] atomic[i]),
            atomic_high(atomic[i]),
            true,
            atomic.len(),
        ) == 0 && atomic_total(atomic, atomic_low(atomic[i]), atomic_high(atomic[i]), false, atomic.len()) == 0
}

/// A total that is not zero has an atomic edge that contributes to it.
proof fn lemma_total_witness(edges: Seq<AtomicEdge>, low: ExactPoint, high: ExactPoint, subject: bool, n: nat)
    requires
        n <= edges.len(),
        atomic_total(edges, low, high, subject, n) != 0,
    ensures
        exists|k: int| 0 <= k < n && #[trigger] atomic_change(edges[k], low, high, subject) != 0,
    decreases n,
{
    if atomic_change(edges[n - 1], low, high, subject) == 0 {
        lemma_total_witness(edges, low, high, subject, (n - 1) as nat);
        let k = choose|k: int| 0 <= k < n - 1 && #[trigger] atomic_change(edges[k], low, high, subject) != 0;
        assert(0 <= k < n);
    }
}

/// Merges coincident atomic edges, summing their subject and clip winding
/// changes; edges whose changes cancel are dropped. The edges come in
/// increasing order of their endpoints, each pair of endpoints once. Each
/// sum is bounded by the number of edges, so no sum overflows and a result
/// always comes back.
#[verifier::spinoff_prover]
#[verifier::rlimit(80)]
pub fn merge_atomic_edges(atomic_edges: &Vec<AtomicEdge>) -> (result: Option<Vec<ArrangementEdge>>)
    requires
        atomic_wf(atomic_edges@),
    ensures
        result is Some,
        result matches Some(edges) ==> arrangement_wf(edges@),
        result matches Some(edges) ==> forall|k: int|
            0 <= k < edges@.len() ==> (#[trigger] edges@[k]).subject_delta != 0 || edges@[k].clip_delta != 0,
        result matches Some(edges) ==> forall|k: int|
            0 <= k < edges@.len() ==> along_atomic(atomic_edges@, (#[trigger] edges@[k]).start.qp(), edges@[k].end.qp()),
        result matches Some(edges) ==> forall|k: int|
            0 < k < edges@.len() ==> edge_order(
                edges@[k - 1].start,
                edges@[k - 1].end,
                (#[trigger] edges@[k]).start,
                edges@[k].end,
            ) < 0,
        result matches Some(edges) ==> merged_totals(edges@, atomic_edges@),
        result matches Some(edges) ==> merged_covers(edges@, atomic_edges@),
{
    let mut oriented: Vec<OrientedEdge> = Vec::new();
    let mut index: usize = 0;
    while index < atomic_edges.len()
        invariant
            atomic_wf(atomic_edges@),
            index <= atomic_edges@.len(),
            oriented@.len() == index,
            oriented_wf(oriented@),
            forall|k: int|
                0 <= k < oriented@.len() ==> along_atomic(
                    atomic_edges@,
                    (#[trigger] oriented@[k]).low.qp(),
                    oriented@[k].high.qp(),
                ),
            oriented_from(oriented@, atomic_edges@),
        decreases atomic_edges@.len() - index,
    {
        proof {
            assert(atomic_edges@[index as int].start.wf());
        }
        let edge = &atomic_edges[index];
        let ghost before_push = oriented@;
        if edge.start.compare(&edge.end) < 0 {
            oriented.push(OrientedEdge { low: edge.start.copy(), high: edge.end.copy(), delta: 1, subject: edge.subject });
        } else {
            oriented.push(OrientedEdge { low: edge.end.copy(), high: edge.start.copy(), delta: -1, subject: edge.subject });
        }
        proof {
            assert(along_atomic(
                atomic_edges@,
                oriented@[index as int].low.qp(),
                oriented@[index as int].high.qp(),
            ));
            assert forall|k: int| 0 <= k < oriented@.len() implies (#[trigger] oriented@[k]).low.qp() == atomic_low(
                atomic_edges@[k],
            ).qp() && oriented@[k].high.qp() == atomic_high(atomic_edges@[k]).qp() && oriented@[k].subject
                == atomic_edges@[k].subject && oriented@[k].delta == (if point_order(
                atomic_edges@[k].start,
                atomic_edges@[k].end,
            ) < 0 {
                1int
            } else {
                -1int
            }) by {
                if k < index {
                    assert(oriented@[k] == before_push[k]);
                }
            }
        }
        index += 1;
    }
    let len = oriented.len();
    let mut order = identity_order(len);
    let ghost initial = order@;
    let before = |i: usize, j: usize| -> (r: bool)
        requires
            i < oriented@.len(),
            j < oriented@.len(),
            oriented_wf(oriented@),
        ensures
            r == (edge_order(oriented@[i as int].low, oriented@[i as int].high, oriented@[j as int].low, oriented@[j as int].high) < 0),
        {
            let first = oriented[i].low.compare(&oriented[j].low);
            if first != 0 {
                first < 0
            } else {
                oriented[i].high.compare(&oriented[j].high) < 0
            }
        };
    let ghost ascending = |i: usize, j: usize|
        edge_order(oriented@[i as int].low, oriented@[i as int].high, oriented@[j as int].low, oriented@[j as int].high)
            < 0;
    assert forall|i: usize, j: usize| i < len && j < len && #[trigger] ascending(i, j) implies !ascending(j, i) by {
        let (a, b) = (oriented@[i as int], oriented@[j as int]);
        lemma_edge_order(a.low, a.high, b.low, b.high, b.low, b.high);
    }
    assert(decides(before, ascending, len));
    sort_indices_by(&mut order, len, &before, Ghost(ascending));
    assert(sorted_adjacent(oriented@, order@)) by {
        assert forall|k: int| 0 < k < order@.len() implies !(edge_order(
            oriented@[#[trigger] order@[k] as int].low,
            oriented@[order@[k] as int].high,
            oriented@[order@[k - 1] as int].low,
            oriented@[order@[k - 1] as int].high,
        ) < 0) by {
            assert(!ascending(order@[k], order@[k - 1]));
        }
    }
    let mut merged: Vec<ArrangementEdge> = Vec::new();
    let mut position: usize = 0;
    while position < len
        invariant
            len == oriented@.len(),
            oriented_wf(oriented@),
            order@.len() == len,
            forall|k: int| 0 <= k < order@.len() ==> #[trigger] order@[k] < len,
            position <= len,
            arrangement_wf(merged@),
            forall|k: int|
                0 <= k < oriented@.len() ==> along_atomic(
                    atomic_edges@,
                    (#[trigger] oriented@[k]).low.qp(),
                    oriented@[k].high.qp(),
                ),
            forall|k: int|
                0 <= k < merged@.len() ==> along_atomic(atomic_edges@, (#[trigger] merged@[k]).start.qp(), merged@[k].end.qp()),
            forall|k: int| 0 <= k < merged@.len() ==> (#[trigger] merged@[k]).subject_delta != 0 || merged@[k].clip_delta != 0,
            adjacent_in_order(order@, ascending),
            forall|i: usize, j: usize|
                #[trigger] ascending(i, j) == (edge_order(
                    oriented@[i as int].low,
                    oriented@[i as int].high,
                    oriented@[j as int].low,
                    oriented@[j as int].high,
                ) < 0),
            forall|k: int|
                0 < k < merged@.len() ==> edge_order(
                    merged@[k - 1].start,
                    merged@[k - 1].end,
                    (#[trigger] merged@[k]).start,
                    merged@[k].end,
                ) < 0,
            position < len && merged@.len() > 0 ==> edge_order(
                merged@.last().start,
                merged@.last().end,
                oriented@[order@[position as int] as int].low,
                oriented@[order@[position as int] as int].high,
            ) < 0,
            atomic_wf(atomic_edges@),
            atomic_edges@.len() == len,
            oriented_from(oriented@, atomic_edges@),
            sorted_adjacent(oriented@, order@),
            order@.to_multiset() == initial.to_multiset(),
            initial.len() == len,
            forall|k: int| 0 <= k < initial.len() ==> #[trigger] initial[k] == k,
            0 < position < len ==> edge_order(
                oriented@[order@[position - 1] as int].low,
                oriented@[order@[position - 1] as int].high,
                oriented@[order@[position as int] as int].low,
                oriented@[order@[position as int] as int].high,
            ) < 0,
            merged_totals(merged@, atomic_edges@),
            forall|p: int|
                0 <= p < position && (atomic_total(
                    atomic_edges@,
                    oriented@[#[trigger] order@[p] as int].low,
                    oriented@[order@[p] as int].high,
                    true,
                    len as nat,
                ) != 0 || atomic_total(
                    atomic_edges@,
                    oriented@[order@[p] as int].low,
                    oriented@[order@[p] as int].high,
                    false,
                    len as nat,
                ) != 0) ==> edge_listed(merged@, oriented@[order@[p] as int].low, oriented@[order@[p] as int].high),
        decreases len - position,
    {
        let first = order[position];
        proof {
            assert(oriented@[first as int].low.wf());
        }
        let ghost fo = oriented@[first as int];
        proof {
            lemma_prefix_zero(atomic_edges@, oriented@, order@, position as int, true);
            lemma_prefix_zero(atomic_edges@, oriented@, order@, position as int, false);
        }
        let mut subject_delta: i128 = 0;
        let mut clip_delta: i128 = 0;
        let mut group_end = position;
        while group_end < len
            invariant
                len == oriented@.len(),
                oriented_wf(oriented@),
                order@.len() == len,
                forall|k: int| 0 <= k < order@.len() ==> #[trigger] order@[k] < len,
                first < len,
                first == order@[position as int],
                position <= group_end <= len,
                -(group_end - position) <= subject_delta <= group_end - position,
                -(group_end - position) <= clip_delta <= group_end - position,
                forall|q: int|
                    position <= q < group_end ==> qp_same(
                        (#[trigger] oriented@[order@[q] as int]).low.qp(),
                        oriented@[first as int].low.qp(),
                    ) && qp_same(oriented@[order@[q] as int].high.qp(), oriented@[first as int].high.qp()),
                fo == oriented@[first as int],
                oriented_from(oriented@, atomic_edges@),
                subject_delta == order@.take(group_end as int).fold_left(
                    0,
                    change_step(atomic_edges@, fo.low, fo.high, true),
                ),
                clip_delta == order@.take(group_end as int).fold_left(
                    0,
                    change_step(atomic_edges@, fo.low, fo.high, false),
                ),
            ensures
                group_end < len ==> group_end > position && !(qp_same(
                    oriented@[order@[group_end as int] as int].low.qp(),
                    oriented@[first as int].low.qp(),
                ) && qp_same(oriented@[order@[group_end as int] as int].high.qp(), oriented@[first as int].high.qp())),
            decreases len - group_end,
        {
            let candidate = order[group_end];
            proof {
                assert(oriented@[candidate as int].low.wf());
            }
            if group_end > position && !(oriented[candidate].low.equals(&oriented[first].low)
                && oriented[candidate].high.equals(&oriented[first].high)) {
                break;
            }
            proof {
                let c = oriented@[candidate as int];
                assert(qp_same(c.low.qp(), fo.low.qp()) && qp_same(c.high.qp(), fo.high.qp()));
                assert(order@.take(group_end + 1).drop_last() =~= order@.take(group_end as int));
                assert(order@.take(group_end + 1).last() == candidate);
            }
            if oriented[candidate].subject {
                subject_delta = subject_delta + oriented[candidate].delta;
            } else {
                clip_delta = clip_delta + oriented[candidate].delta;
            }
            group_end += 1;
        }
        if group_end == position {
            group_end = position + 1;
        }
        let ghost unmerged = merged@;
        proof {
            if group_end < len {
                let n = order@[group_end as int];
                let prev = order@[group_end - 1];
                let no = oriented@[n as int];
                let po = oriented@[prev as int];
                assert(!ascending(n, prev));
                assert(qp_same(po.low.qp(), fo.low.qp()) && qp_same(po.high.qp(), fo.high.qp()));
                lemma_edge_order(po.low, po.high, no.low, no.high, no.low, no.high);
                lemma_edge_order(po.low, po.high, fo.low, fo.high, no.low, no.high);
                lemma_edge_order(fo.low, fo.high, no.low, no.high, no.low, no.high);
                assert(edge_order(fo.low, fo.high, no.low, no.high) < 0);
            }
            lemma_suffix_zero(atomic_edges@, oriented@, order@, group_end as int, fo, true);
            lemma_suffix_zero(atomic_edges@, oriented@, order@, group_end as int, fo, false);
            assert(order@.take(len as int) =~= order@);
            lemma_permuted_total(atomic_edges@, order@, initial, fo.low, fo.high, true);
            lemma_permuted_total(atomic_edges@, order@, initial, fo.low, fo.high, false);
            assert(subject_delta == atomic_total(atomic_edges@, fo.low, fo.high, true, len as nat));
            assert(clip_delta == atomic_total(atomic_edges@, fo.low, fo.high, false, len as nat));
        }
        if subject_delta != 0 || clip_delta != 0 {
            let ghost before = merged@;
            merged.push(ArrangementEdge {
                start: oriented[first].low.copy(),
                end: oriented[first].high.copy(),
                subject_delta,
                clip_delta,
            });
            proof {
                assert(along_atomic(atomic_edges@, oriented@[first as int].low.qp(), oriented@[first as int].high.qp()));
                assert forall|k: int| 0 <= k < merged@.len() implies along_atomic(
                    atomic_edges@,
                    (#[trigger] merged@[k]).start.qp(),
                    merged@[k].end.qp(),
                ) && (merged@[k].subject_delta != 0 || merged@[k].clip_delta != 0) by {
                    if k < before.len() {
                        assert(merged@[k] == before[k]);
                    }
                }
                let m = merged@[before.len() as int];
                lemma_total_same_key(atomic_edges@, fo.low, fo.high, m.start, m.end, true, len as nat);
                lemma_total_same_key(atomic_edges@, fo.low, fo.high, m.start, m.end, false, len as nat);
                assert(merged_totals(merged@, atomic_edges@)) by {
                    assert forall|k: int| 0 <= k < merged@.len() implies (#[trigger] merged@[k]).subject_delta
                        == atomic_total(atomic_edges@, merged@[k].start, merged@[k].end, true, len as nat)
                        && merged@[k].clip_delta == atomic_total(
                        atomic_edges@,
                        merged@[k].start,
                        merged@[k].end,
                        false,
                        len as nat,
                    ) by {
                        if k < before.len() {
                            assert(merged@[k] == before[k]);
                        }
                    }
                }
                assert forall|k: int| 0 < k < merged@.len() implies edge_order(
                    merged@[k - 1].start,
                    merged@[k - 1].end,
                    (#[trigger] merged@[k]).start,
                    merged@[k].end,
                ) < 0 by {
                    if k < before.len() {
                        assert(merged@[k] == before[k] && merged@[k - 1] == before[k - 1]);
                    } else {
                        assert(merged@[k - 1] == before.last());
                    }
                }
            }
        }
        proof {
            if group_end < len {
                let no = oriented@[order@[group_end as int] as int];
                if merged@.len() > 0 {
                    let m = merged@.last();
                    if merged@.len() > unmerged.len() {
                        assert(m.start.qp() == fo.low.qp() && m.end.qp() == fo.high.qp());
                    } else {
                        assert(m == unmerged.last());
                        lemma_edge_order(m.start, m.end, fo.low, fo.high, no.low, no.high);
                    }
                }
                let prev = oriented@[order@[group_end - 1] as int];
                lemma_edge_order(prev.low, prev.high, fo.low, fo.high, no.low, no.high);
            }
            assert forall|p: int|
                0 <= p < group_end && (atomic_total(
                    atomic_edges@,
                    oriented@[#[trigger] order@[p] as int].low,
                    oriented@[order@[p] as int].high,
                    true,
                    len as nat,
                ) != 0 || atomic_total(
                    atomic_edges@,
                    oriented@[order@[p] as int].low,
                    oriented@[order@[p] as int].high,
                    false,
                    len as nat,
                ) != 0) implies edge_listed(merged@, oriented@[order@[p] as int].low, oriented@[order@[p] as int].high) by {
                let e = oriented@[order@[p] as int];
                if p < position {
                    assert(edge_listed(unmerged, e.low, e.high));
                    let k = choose|k: int|
                        0 <= k < unmerged.len() && qp_same((#[trigger] unmerged[k]).start.qp(), e.low.qp())
                            && qp_same(unmerged[k].end.qp(), e.high.qp());
                    assert(merged@[k] == unmerged[k]);
                } else {
                    assert(qp_same(e.low.qp(), fo.low.qp()) && qp_same(e.high.qp(), fo.high.qp()));
                    assert(order@[p] < len);
                    if merged@.len() > unmerged.len() {
                        let k = merged@.len() - 1;
                        assert(merged@[k].start.qp() == fo.low.qp() && merged@[k].end.qp() == fo.high.qp());
                        lemma_qp_same_symmetric(e.low.qp(), fo.low.qp());
                        lemma_qp_same_symmetric(e.high.qp(), fo.high.qp());
                        assert(qp_same(merged@[k].start.qp(), e.low.qp()) && qp_same(merged@[k].end.qp(), e.high.qp()));
                    } else {
                        lemma_total_same_key(atomic_edges@, e.low, e.high, fo.low, fo.high, true, len as nat);
                        lemma_total_same_key(atomic_edges@, e.low, e.high, fo.low, fo.high, false, len as nat);
                    }
                }
            }
        }
        position = group_end;
    }
    proof {
        assert forall|i: int|
            0 <= i < atomic_edges@.len() && (atomic_total(
                atomic_edges@,
                atomic_low(#[trigger] atomic_edges@[i]),
                atomic_high(atomic_edges@[i]),
                true,
                atomic_edges@.len(),
            ) != 0 || atomic_total(
                atomic_edges@,
                atomic_low(atomic_edges@[i]),
                atomic_high(atomic_edges@[i]),
                false,
                atomic_edges@.len(),
            ) != 0) implies edge_listed(merged@, atomic_low(atomic_edges@[i]), atomic_high(atomic_edges@[i])) by {
            lemma_order_covers(initial, order@, len as int, i);
            let p = choose|p: int| 0 <= p < order@.len() && order@[p] == i;
            let e = oriented@[i];
            let a = atomic_edges@[i];
            assert(a.start.wf() && a.end.wf());
            lemma_total_same_key(atomic_edges@, atomic_low(a), atomic_high(a), e.low, e.high, true, len as nat);
            lemma_total_same_key(atomic_edges@, atomic_low(a), atomic_high(a), e.low, e.high, false, len as nat);
            assert(order@[p] == i);
        }
        assert(merged_covers(merged@, atomic_edges@));
    }
    Some(merged)
}

/// The reverse of half-edge `h`: half-edges `2k` and `2k + 1` run along edge
/// `k` in opposite directions.
pub open spec fn twin_spec(h: int) -> int {
    if h % 2 == 0 {
        h + 1
    } else {
        h - 1
    }
}

fn twin(h: usize) -> (t: usize)
    requires
        h < usize::MAX,
    ensures
        t == twin_spec(h as int),
{
    if h % 2 == 0 {
        h + 1
    } else {
        h - 1
    }
}

/// Where half-edge `h` starts: the start of edge `h / 2` for even `h`, its
/// end for odd `h`.
pub fn half_edge_start(edges: &Vec<ArrangementEdge>, h: usize) -> (point: &ExactPoint)
    requires
        h / 2 < edges@.len(),
        arrangement_wf(edges@),
    ensures
        point.wf(),
        *point == (if h % 2 == 0 { edges@[h as int / 2].start } else { edges@[h as int / 2].end }),
{
    proof {
        assert(edges@[(h / 2) as int].start.wf());
    }
    if h % 2 == 0 {
        &edges[h / 2].start
    } else {
        &edges[h / 2].end
    }
}

/// Where half-edge `h` ends: the end of edge `h / 2` for even `h`, its start
/// for odd `h`.
pub fn half_edge_end(edges: &Vec<ArrangementEdge>, h: usize) -> (point: &ExactPoint)
    requires
        h / 2 < edges@.len(),
        arrangement_wf(edges@),
    ensures
        point.wf(),
        *point == (if h % 2 == 0 { edges@[h as int / 2].end } else { edges@[h as int / 2].start }),
{
    proof {
        assert(edges@[(h / 2) as int].start.wf());
    }
    if h % 2 == 0 {
        &edges[h / 2].end
    } else {
        &edges[h / 2].start
    }
}

/// The faces of the arrangement: the face to the left of each half-edge and
/// one seed half-edge per face. `None` when the half-edge count overflows.
pub fn build_face_cycles(edges: &Vec<ArrangementEdge>) -> (result: Option<(Vec<usize>, Vec<usize>)>)
    requires
        arrangement_wf(edges@),
    ensures
        result matches Some((face_of, seeds)) ==> face_of@.len() == 2 * edges@.len() && (forall|h: int|
            0 <= h < face_of@.len() ==> #[trigger] face_of@[h] < seeds@.len()) && (forall|f: int|
            0 <= f < seeds@.len() ==> #[trigger] seeds@[f] < face_of@.len()),
        result matches Some((face_of, seeds)) ==> forall|f: int|
            0 <= f < seeds@.len() ==> face_of@[#[trigger] seeds@[f] as int] == f,
        result is Some <==> 2 * edges@.len() < usize::MAX,
{
    let count = match edges.len().checked_mul(2) {
        Some(value) => value,
        None => return None,
    };
    if count == usize::MAX {
        return None;
    }
    let mut order = identity_order(count);
    let before = |i: usize, j: usize| -> (r: bool)
        requires
            i < count,
            j < count,
            count == 2 * edges@.len(),
            arrangement_wf(edges@),
        {
            let origin_i = half_edge_start(edges, i);
            let origin_j = half_edge_start(edges, j);
            let first = origin_i.compare(origin_j);
            if first != 0 {
                first < 0
            } else {
                compare_angle(
                    &half_edge_end(edges, i).sub(origin_i),
                    &half_edge_end(edges, j).sub(origin_j),
                ) < 0
            }
        };
    sort_indices_by(&mut order, count, &before, Ghost(no_order()));
    // Group the sorted half-edges into fans around equal origins.
    let mut fan_start: Vec<usize> = Vec::new();
    let mut fan_len: Vec<usize> = Vec::new();
    let mut fan_of: Vec<usize> = vec_of(count, 0);
    let mut fan_position: Vec<usize> = vec_of(count, 0);
    let mut position: usize = 0;
    while position < count
        invariant
            count == 2 * edges@.len(),
            count < usize::MAX,
            arrangement_wf(edges@),
            order@.len() == count,
            forall|k: int| 0 <= k < order@.len() ==> #[trigger] order@[k] < count,
            position <= count,
            fan_start@.len() == fan_len@.len(),
            fan_of@.len() == count,
            fan_position@.len() == count,
            forall|g: int| 0 <= g < fan_start@.len() ==> #[trigger] fan_start@[g] + fan_len@[g] <= position,
        decreases count - position,
    {
        let first = order[position];
        let mut end = position;
        while end < count
            invariant
                count == 2 * edges@.len(),
                arrangement_wf(edges@),
                order@.len() == count,
                forall|k: int| 0 <= k < order@.len() ==> #[trigger] order@[k] < count,
                first < count,
                position <= end <= count,
            decreases count - end,
        {
            if end > position && !half_edge_start(edges, order[end]).equals(half_edge_start(edges, first)) {
                break;
            }
            end += 1;
        }
        if end == position {
            end = position + 1;
        }
        fan_start.push(position);
        fan_len.push(end - position);
        position = end;
    }
    // Record each half-edge's fan and rank within it.
    let mut group: usize = 0;
    while group < fan_start.len()
        invariant
            count == 2 * edges@.len(),
            order@.len() == count,
            forall|k: int| 0 <= k < order@.len() ==> #[trigger] order@[k] < count,
            fan_start@.len() == fan_len@.len(),
            forall|g: int| 0 <= g < fan_start@.len() ==> #[trigger] fan_start@[g] + fan_len@[g] <= count,
            fan_of@.len() == count,
            fan_position@.len() == count,
            group <= fan_start@.len(),
        decreases fan_start@.len() - group,
    {
        let start = fan_start[group];
        let len = fan_len[group];
        let mut rank: usize = 0;
        while rank < len
            invariant
                order@.len() == count,
                forall|k: int| 0 <= k < order@.len() ==> #[trigger] order@[k] < count,
                start + len <= count,
                fan_of@.len() == count,
                fan_position@.len() == count,
                rank <= len,
            decreases len - rank,
        {
            let h = order[start + rank];
            fan_of.set(h, group);
            fan_position.set(h, rank);
            rank += 1;
        }
        group += 1;
    }
    // The successor of a half-edge is the clockwise neighbour of its twin in
    // the fan at its end point.
    let mut next: Vec<usize> = vec_of(count, 0);
    let mut h: usize = 0;
    while h < count
        invariant
            count == 2 * edges@.len(),
            count < usize::MAX,
            order@.len() == count,
            forall|k: int| 0 <= k < order@.len() ==> #[trigger] order@[k] < count,
            fan_start@.len() == fan_len@.len(),
            forall|g: int| 0 <= g < fan_start@.len() ==> #[trigger] fan_start@[g] + fan_len@[g] <= count,
            fan_of@.len() == count,
            fan_position@.len() == count,
            next@.len() == count,
            forall|k: int| 0 <= k < next@.len() ==> #[trigger] next@[k] < count,
            h <= count,
        decreases count - h,
    {
        let t = twin(h);
        if t < count {
            let group = fan_of[t];
            if group < fan_start.len() {
                let start = fan_start[group];
                let len = fan_len[group];
                let rank = fan_position[t];
                if len > 0 && rank < len {
                    let previous = if rank == 0 {
                        len - 1
                    } else {
                        rank - 1
                    };
                    next.set(h, order[start + previous]);
                }
            }
        }
        h += 1;
    }
    // Walk the successor permutation to number the faces.
    let mut face_of: Vec<usize> = vec_of(count, usize::MAX);
    let mut seeds: Vec<usize> = Vec::new();
    let mut start: usize = 0;
    while start < count
        invariant
            count < usize::MAX,
            next@.len() == count,
            forall|k: int| 0 <= k < next@.len() ==> #[trigger] next@[k] < count,
            face_of@.len() == count,
            forall|k: int| 0 <= k < count ==> #[trigger] face_of@[k] == usize::MAX || face_of@[k] < seeds@.len(),
            forall|f: int| 0 <= f < seeds@.len() ==> #[trigger] seeds@[f] < count,
            forall|k: int| 0 <= k < start ==> #[trigger] face_of@[k] < seeds@.len(),
            forall|f: int| 0 <= f < seeds@.len() ==> face_of@[#[trigger] seeds@[f] as int] == f,
            start <= count,
        decreases count - start,
    {
        if face_of[start] == usize::MAX {
            let face = seeds.len();
            seeds.push(start);
            let mut current = start;
            let mut steps: usize = 0;
            while steps < count
                invariant
                    count < usize::MAX,
                    next@.len() == count,
                    forall|k: int| 0 <= k < next@.len() ==> #[trigger] next@[k] < count,
                    face_of@.len() == count,
                    face == seeds@.len() - 1,
                    forall|k: int| 0 <= k < count ==> #[trigger] face_of@[k] == usize::MAX || face_of@[k] < seeds@.len(),
                    forall|f: int| 0 <= f < seeds@.len() ==> #[trigger] seeds@[f] < count,
                    forall|k: int| 0 <= k < start ==> #[trigger] face_of@[k] < seeds@.len(),
                    start < count,
                    current < count,
                    steps == 0 ==> current == start,
                    steps > 0 ==> face_of@[start as int] == face,
                    seeds@[face as int] == start,
                    steps == 0 ==> face_of@[start as int] == usize::MAX,
                    forall|f: int| 0 <= f < face ==> face_of@[#[trigger] seeds@[f] as int] == f,
                decreases count - steps,
            {
                if face_of[current] != usize::MAX {
                    break;
                }
                face_of.set(current, face);
                current = next[current];
                steps += 1;
            }
            if face_of[start] == usize::MAX {
                face_of.set(start, face);
            }
            assert(face_of@[start as int] == face);
        }
        start += 1;
    }
    Some((face_of, seeds))
}

/// `-value`, or `None` for `i128::MIN`.
pub fn checked_negate(value: i128) -> (result: Option<i128>)
    ensures
        value == i128::MIN ==> result is None,
        value != i128::MIN ==> result == Some((-value) as i128),
{
    if value == i128::MIN {
        None
    } else {
        Some(-value)
    }
}

/// A vector of `len` copies of `value`.
pub fn vec_of(len: usize, value: usize) -> (result: Vec<usize>)
    ensures
        result@.len() == len,
        forall|k: int| 0 <= k < len ==> #[trigger] result@[k] == value,
{
    let mut result: Vec<usize> = Vec::new();
    let mut index: usize = 0;
    while index < len
        invariant
            index <= len,
            result@.len() == index,
            forall|k: int| 0 <= k < index ==> #[trigger] result@[k] == value,
        decreases len - index,
    {
        result.push(value);
        index += 1;
    }
    result
}

} // verus!

verus! {

/// Whether `point` is filled by the paths: on a boundary, or inside by the
/// fill rule.
pub open spec fn paths_contain_spec(point: QPoint, paths: Seq<Vec<ExactPoint>>, fill_rule: FillRule) -> bool {
    match paths_winding(point, paths) {
        None => true,
        Some(winding) => winding_contains_spec(winding, fill_rule),
    }
}

/// Whether `point` is filled by the paths: on a boundary, or inside by the
/// fill rule.
pub fn paths_contain(point: &ExactPoint, paths: &[Vec<ExactPoint>], fill_rule: FillRule) -> (result: bool)
    requires
        point.wf(),
        paths_wf(paths@),
        edge_count(paths@, paths@.len() as nat) <= i128::MAX,
    ensures
        result == paths_contain_spec(point.qp(), paths@, fill_rule),
{
    match paths_winding_at(point, paths) {
        None => true,
        Some(winding) => winding_contains(winding, fill_rule),
    }
}

/// Whether `point` belongs to the result region: a point on a boundary of
/// either side counts as filled for that side.
pub open spec fn operation_contains_spec(
    point: QPoint,
    subjects: Seq<Vec<ExactPoint>>,
    clips: Seq<Vec<ExactPoint>>,
    clip_type: ClipType,
    fill_rule: FillRule,
) -> bool {
    apply_operation_spec(
        paths_contain_spec(point, subjects, fill_rule),
        paths_contain_spec(point, clips, fill_rule),
        clip_type,
    )
}

/// Whether the subject and clip windings at `point` fit the request: true on
/// a boundary, otherwise the operation applied to the two fill tests.
pub fn operation_contains(
    point: &ExactPoint,
    subjects: &[Vec<ExactPoint>],
    clips: &[Vec<ExactPoint>],
    clip_type: ClipType,
    fill_rule: FillRule,
) -> (result: bool)
    requires
        point.wf(),
        paths_wf(subjects@),
        paths_wf(clips@),
        edge_count(subjects@, subjects@.len() as nat) <= i128::MAX,
        edge_count(clips@, clips@.len() as nat) <= i128::MAX,
    ensures
        result == operation_contains_spec(point.qp(), subjects@, clips@, clip_type, fill_rule),
{
    let subject = paths_contain(point, subjects, fill_rule);
    let clip = paths_contain(point, clips, fill_rule);
    apply_operation(subject, clip, clip_type)
}

/// The point just left of the midpoint of `start -> end`, at distance
/// `epsilon` times the edge length.
pub open spec fn left_sample(start: QPoint, end: QPoint, epsilon: Q) -> QPoint {
    let middle = qp_point_at(start, end, (1int, 2int));
    let vector = qp_sub(end, start);
    (q_sub(middle.0, q_mul(vector.1, epsilon)), q_add(middle.1, q_mul(vector.0, epsilon)))
}

/// The point just right of the midpoint of `start -> end`, at distance
/// `epsilon` times the edge length.
pub open spec fn right_sample(start: QPoint, end: QPoint, epsilon: Q) -> QPoint {
    let middle = qp_point_at(start, end, (1int, 2int));
    let vector = qp_sub(end, start);
    (q_add(middle.0, q_mul(vector.1, epsilon)), q_sub(middle.1, q_mul(vector.0, epsilon)))
}

/// Points just left and right of the midpoint of `start -> end`, at distance
/// `epsilon` times the edge length.
fn side_samples(start: &ExactPoint, end: &ExactPoint, epsilon: &Rational) -> (samples: (ExactPoint, ExactPoint))
    requires
        start.wf(),
        end.wf(),
        epsilon.wf(),
    ensures
        samples.0.wf(),
        samples.1.wf(),
        samples.0.qp() == left_sample(start.qp(), end.qp(), epsilon.q()),
        samples.1.qp() == right_sample(start.qp(), end.qp(), epsilon.q()),
{
    let midpoint = point_at(start, end, &Rational::half());
    let vector = end.sub(start);
    let dx = vector.y.mul(epsilon);
    let dy = vector.x.mul(epsilon);
    let left = ExactPoint { x: midpoint.x.sub(&dx), y: midpoint.y.add(&dy) };
    let right = ExactPoint { x: midpoint.x.add(&dx), y: midpoint.y.sub(&dy) };
    (left, right)
}

/// How the sampled boundary runs along an atomic edge: forward when the
/// operation holds just left of the edge and not just right of it, backward
/// in the opposite case, and not at all when both sides agree.
pub open spec fn sampled_orientation(
    edge: AtomicEdge,
    subjects: Seq<Vec<ExactPoint>>,
    clips: Seq<Vec<ExactPoint>>,
    clip_type: ClipType,
    fill_rule: FillRule,
    epsilon: Q,
) -> Option<(QPoint, QPoint)> {
    let left = operation_contains_spec(
        left_sample(edge.start.qp(), edge.end.qp(), epsilon),
        subjects,
        clips,
        clip_type,
        fill_rule,
    );
    let right = operation_contains_spec(
        right_sample(edge.start.qp(), edge.end.qp(), epsilon),
        subjects,
        clips,
        clip_type,
        fill_rule,
    );
    if left == right {
        None
    } else if left {
        Some((edge.start.qp(), edge.end.qp()))
    } else {
        Some((edge.end.qp(), edge.start.qp()))
    }
}

/// Whether `edge` runs along atomic edge `i` as the sampled boundary does.
pub open spec fn sampled_from(
    atomic: Seq<AtomicEdge>,
    i: int,
    edge: DirectedEdge,
    subjects: Seq<Vec<ExactPoint>>,
    clips: Seq<Vec<ExactPoint>>,
    clip_type: ClipType,
    fill_rule: FillRule,
    epsilon: Q,
) -> bool {
    sampled_orientation(atomic[i], subjects, clips, clip_type, fill_rule, epsilon) == Some(
        (edge.start.qp(), edge.end.qp()),
    )
}

/// Whether `edge` runs along some atomic edge as the sampled boundary does.
pub open spec fn sampled_edge(
    atomic: Seq<AtomicEdge>,
    edge: DirectedEdge,
    subjects: Seq<Vec<ExactPoint>>,
    clips: Seq<Vec<ExactPoint>>,
    clip_type: ClipType,
    fill_rule: FillRule,
    epsilon: Q,
) -> bool {
    exists|i: int|
        0 <= i < atomic.len() && #[trigger] sampled_from(
            atomic,
            i,
            edge,
            subjects,
            clips,
            clip_type,
            fill_rule,
            epsilon,
        )
}

/// Whether some directed edge runs from a point equal to `start` to a point
/// equal to `end`.
pub open spec fn directed_listed(edges: Seq<DirectedEdge>, start: QPoint, end: QPoint) -> bool {
    exists|k: int|
        0 <= k < edges.len() && qp_same((#[trigger] edges[k]).start.qp(), start) && qp_same(
            edges[k].end.qp(),
            end,
        )
}

/// Classifies every atomic edge by sampling both of its sides, keeping the
/// edges whose sides differ, oriented with the filled side on the left, in
/// sorted order without repeats.
#[verifier::spinoff_prover]
#[verifier::rlimit(50)]
pub fn sample_atomic_boundary(
    atomic_edges: &Vec<AtomicEdge>,
    subjects: &[Vec<ExactPoint>],
    clips: &[Vec<ExactPoint>],
    clip_type: ClipType,
    fill_rule: FillRule,
    epsilon: &Rational,
) -> (directed: Vec<DirectedEdge>)
    requires
        atomic_wf(atomic_edges@),
        paths_wf(subjects@),
        paths_wf(clips@),
        edge_count(subjects@, subjects@.len() as nat) <= i128::MAX,
        edge_count(clips@, clips@.len() as nat) <= i128::MAX,
        epsilon.wf(),
    ensures
        directed_wf(directed@),
        forall|k: int|
            0 <= k < directed@.len() ==> sampled_edge(
                atomic_edges@,
                #[trigger] directed@[k],
                subjects@,
                clips@,
                clip_type,
                fill_rule,
                epsilon.q(),
            ),
        forall|i: int|
            0 <= i < atomic_edges@.len() ==> match #[trigger] sampled_orientation(
                atomic_edges@[i],
                subjects@,
                clips@,
                clip_type,
                fill_rule,
                epsilon.q(),
            ) {
                Some((start, end)) => directed_listed(directed@, start, end),
                None => true,
            },
        forall|k: int|
            0 < k < directed@.len() ==> edge_order(
                directed@[k - 1].start,
                directed@[k - 1].end,
                (#[trigger] directed@[k]).start,
                directed@[k].end,
            ) < 0,
{
    let ghost eps = epsilon.q();
    let mut found: Vec<DirectedEdge> = Vec::new();
    let mut index: usize = 0;
    while index < atomic_edges.len()
        invariant
            atomic_wf(atomic_edges@),
            paths_wf(subjects@),
            paths_wf(clips@),
            edge_count(subjects@, subjects@.len() as nat) <= i128::MAX,
            edge_count(clips@, clips@.len() as nat) <= i128::MAX,
            epsilon.wf(),
            eps == epsilon.q(),
            directed_wf(found@),
            index <= atomic_edges@.len(),
            forall|k: int|
                0 <= k < found@.len() ==> sampled_edge(
                    atomic_edges@,
                    #[trigger] found@[k],
                    subjects@,
                    clips@,
                    clip_type,
                    fill_rule,
                    eps,
                ),
            forall|i: int|
                0 <= i < index ==> match #[trigger] sampled_orientation(
                    atomic_edges@[i],
                    subjects@,
                    clips@,
                    clip_type,
                    fill_rule,
                    eps,
                ) {
                    Some((start, end)) => exists|k: int|
                        0 <= k < found@.len() && (#[trigger] found@[k]).start.qp() == start && found@[k].end.qp()
                            == end,
                    None => true,
                },
        decreases atomic_edges@.len() - index,
    {
        proof {
            assert(atomic_edges@[index as int].start.wf());
        }
        let edge = &atomic_edges[index];
        let (left_sample_point, right_sample_point) = side_samples(&edge.start, &edge.end, epsilon);
        let left = operation_contains(&left_sample_point, subjects, clips, clip_type, fill_rule);
        let right = operation_contains(&right_sample_point, subjects, clips, clip_type, fill_rule);
        let ghost before = found@;
        if left != right {
            if left {
                found.push(DirectedEdge { start: edge.start.copy(), end: edge.end.copy() });
            } else {
                found.push(DirectedEdge { start: edge.end.copy(), end: edge.start.copy() });
            }
            proof {
                let last = found@[before.len() as int];
                assert(sampled_from(atomic_edges@, index as int, last, subjects@, clips@, clip_type, fill_rule, eps));
                assert forall|k: int| 0 <= k < found@.len() implies sampled_edge(
                    atomic_edges@,
                    #[trigger] found@[k],
                    subjects@,
                    clips@,
                    clip_type,
                    fill_rule,
                    eps,
                ) by {
                    if k < before.len() {
                        assert(found@[k] == before[k]);
                    }
                }
            }
        }
        proof {
            assert forall|i: int| 0 <= i < index + 1 implies match #[trigger] sampled_orientation(
                atomic_edges@[i],
                subjects@,
                clips@,
                clip_type,
                fill_rule,
                eps,
            ) {
                Some((start, end)) => exists|k: int|
                    0 <= k < found@.len() && (#[trigger] found@[k]).start.qp() == start && found@[k].end.qp() == end,
                None => true,
            } by {
                if i < index {
                    match sampled_orientation(atomic_edges@[i], subjects@, clips@, clip_type, fill_rule, eps) {
                        Some((start, end)) => {
                            let k = choose|k: int|
                                0 <= k < before.len() && (#[trigger] before[k]).start.qp() == start
                                    && before[k].end.qp() == end;
                            assert(found@[k] == before[k]);
                        },
                        None => {},
                    }
                } else {
                    match sampled_orientation(atomic_edges@[i], subjects@, clips@, clip_type, fill_rule, eps) {
                        Some((start, end)) => {
                            assert(found@[before.len() as int].start.qp() == start);
                        },
                        None => {},
                    }
                }
            }
        }
        index += 1;
    }
    let len = found.len();
    let mut order = identity_order(len);
    let ghost initial = order@;
    let before = |i: usize, j: usize| -> (r: bool)
        requires
            i < found@.len(),
            j < found@.len(),
            directed_wf(found@),
        ensures
            r == (edge_order(found@[i as int].start, found@[i as int].end, found@[j as int].start, found@[j as int].end)
                < 0),
        {
            let first = found[i].start.compare(&found[j].start);
            if first != 0 {
                first < 0
            } else {
                found[i].end.compare(&found[j].end) < 0
            }
        };
    let ghost ascending = |i: usize, j: usize|
        edge_order(found@[i as int].start, found@[i as int].end, found@[j as int].start, found@[j as int].end) < 0;
    assert forall|i: usize, j: usize| i < len && j < len && #[trigger] ascending(i, j) implies !ascending(j, i) by {
        let (a, b) = (found@[i as int], found@[j as int]);
        lemma_edge_order(a.start, a.end, b.start, b.end, b.start, b.end);
    }
    assert(decides(before, ascending, len));
    sort_indices_by(&mut order, len, &before, Ghost(ascending));
    let mut directed: Vec<DirectedEdge> = Vec::new();
    let mut position: usize = 0;
    while position < len
        invariant
            len == found@.len(),
            directed_wf(found@),
            order@.len() == len,
            forall|k: int| 0 <= k < order@.len() ==> #[trigger] order@[k] < len,
            position <= len,
            directed_wf(directed@),
            forall|k: int|
                0 <= k < found@.len() ==> sampled_edge(
                    atomic_edges@,
                    #[trigger] found@[k],
                    subjects@,
                    clips@,
                    clip_type,
                    fill_rule,
                    eps,
                ),
            forall|k: int|
                0 <= k < directed@.len() ==> sampled_edge(
                    atomic_edges@,
                    #[trigger] directed@[k],
                    subjects@,
                    clips@,
                    clip_type,
                    fill_rule,
                    eps,
                ),
            forall|p: int|
                0 <= p < position ==> directed_listed(
                    directed@,
                    found@[#[trigger] order@[p] as int].start.qp(),
                    found@[order@[p] as int].end.qp(),
                ),
            adjacent_in_order(order@, ascending),
            forall|i: usize, j: usize|
                #[trigger] ascending(i, j) == (edge_order(
                    found@[i as int].start,
                    found@[i as int].end,
                    found@[j as int].start,
                    found@[j as int].end,
                ) < 0),
            directed@.len() <= position,
            position > 0 ==> directed@.len() > 0 && qp_same(
                directed@.last().start.qp(),
                found@[order@[position - 1] as int].start.qp(),
            ) && qp_same(directed@.last().end.qp(), found@[order@[position - 1] as int].end.qp()),
            forall|k: int|
                0 < k < directed@.len() ==> edge_order(
                    directed@[k - 1].start,
                    directed@[k - 1].end,
                    (#[trigger] directed@[k]).start,
                    directed@[k].end,
                ) < 0,
        decreases len - position,
    {
        let candidate = &found[order[position]];
        proof {
            assert(found@[order@[position as int] as int].start.wf());
        }
        let count = directed.len();
        let repeated = if count == 0 {
            false
        } else {
            proof {
                assert(directed@[count - 1].start.wf());
            }
            directed[count - 1].start.equals(&candidate.start) && directed[count - 1].end.equals(
                &candidate.end,
            )
        };
        let ghost previous = directed@;
        proof {
            if count > 0 && !repeated {
                let c = found@[order@[position as int] as int];
                let prev = found@[order@[position - 1] as int];
                let last = directed@[count - 1];
                assert(prev.start.wf() && prev.end.wf() && c.start.wf() && c.end.wf());
                assert(!ascending(order@[position as int], order@[position - 1]));
                lemma_next_in_order(last.start, last.end, prev.start, prev.end, c.start, c.end);
            }
        }
        if !repeated {
            directed.push(DirectedEdge { start: candidate.start.copy(), end: candidate.end.copy() });
            proof {
                let chosen = found@[order@[position as int] as int];
                assert(sampled_edge(atomic_edges@, chosen, subjects@, clips@, clip_type, fill_rule, eps));
                let i = choose|i: int|
                    0 <= i < atomic_edges@.len() && #[trigger] sampled_from(
                        atomic_edges@,
                        i,
                        chosen,
                        subjects@,
                        clips@,
                        clip_type,
                        fill_rule,
                        eps,
                    );
                assert(sampled_from(
                    atomic_edges@,
                    i,
                    directed@[count as int],
                    subjects@,
                    clips@,
                    clip_type,
                    fill_rule,
                    eps,
                ));
                assert forall|k: int| 0 <= k < directed@.len() implies sampled_edge(
                    atomic_edges@,
                    #[trigger] directed@[k],
                    subjects@,
                    clips@,
                    clip_type,
                    fill_rule,
                    eps,
                ) by {
                    if k < count {
                        assert(directed@[k] == previous[k]);
                    }
                }
                assert forall|k: int| 0 < k < directed@.len() implies edge_order(
                    directed@[k - 1].start,
                    directed@[k - 1].end,
                    (#[trigger] directed@[k]).start,
                    directed@[k].end,
                ) < 0 by {
                    assert(directed@[k - 1] == previous[k - 1]);
                    if k < count {
                        assert(directed@[k] == previous[k]);
                    }
                }
            }
        }
        proof {
            assert forall|p: int| 0 <= p < position + 1 implies directed_listed(
                directed@,
                found@[#[trigger] order@[p] as int].start.qp(),
                found@[order@[p] as int].end.qp(),
            ) by {
                if p < position {
                    let k = choose|k: int|
                        0 <= k < previous.len() && qp_same(
                            (#[trigger] previous[k]).start.qp(),
                            found@[order@[p] as int].start.qp(),
                        ) && qp_same(previous[k].end.qp(), found@[order@[p] as int].end.qp());
                    assert(directed@[k] == previous[k]);
                } else if repeated {
                    assert(directed@[count - 1] == previous[count - 1]);
                } else {
                    assert(qp_same(directed@[count as int].start.qp(), found@[order@[p] as int].start.qp()));
                    assert(qp_same(directed@[count as int].end.qp(), found@[order@[p] as int].end.qp()));
                }
            }
        }
        position += 1;
    }
    proof {
        assert forall|i: int| 0 <= i < atomic_edges@.len() implies match #[trigger] sampled_orientation(
            atomic_edges@[i],
            subjects@,
            clips@,
            clip_type,
            fill_rule,
            eps,
        ) {
            Some((start, end)) => directed_listed(directed@, start, end),
            None => true,
        } by {
            match sampled_orientation(atomic_edges@[i], subjects@, clips@, clip_type, fill_rule, eps) {
                Some((start, end)) => {
                    let k = choose|k: int|
                        0 <= k < found@.len() && (#[trigger] found@[k]).start.qp() == start && found@[k].end.qp()
                            == end;
                    lemma_order_covers(initial, order@, len as int, k);
                    let p = choose|p: int| 0 <= p < order@.len() && order@[p] == k;
                    assert(directed_listed(directed@, found@[order@[p] as int].start.qp(), found@[order@[p] as int].end.qp()));
                },
                None => {},
            }
        }
    }
    directed
}

/// The winding changes across half-edge `h` of `edge`: the edge's own for
/// even `h`, negated for odd `h`.
pub open spec fn half_edge_change(edge: ArrangementEdge, h: int) -> (int, int) {
    if h % 2 == 0 {
        (edge.subject_delta as int, edge.clip_delta as int)
    } else {
        (-edge.subject_delta, -edge.clip_delta)
    }
}

/// The subject and clip winding changes across half-edge `h`; `None` when a
/// negation overflows.
pub fn half_edge_delta(edges: &Vec<ArrangementEdge>, h: usize) -> (result: Option<WindingPair>)
    requires
        h / 2 < edges@.len(),
    ensures
        result is Some <==> (h % 2 == 0 || (edges@[h as int / 2].subject_delta != i128::MIN && edges@[h as int / 2].clip_delta
            != i128::MIN)),
        result matches Some(pair) ==> (pair.subject as int, pair.clip as int) == half_edge_change(edges@[h as int / 2], h as int),
{
    let edge = &edges[h / 2];
    if h % 2 == 0 {
        Some(WindingPair { subject: edge.subject_delta, clip: edge.clip_delta })
    } else {
        let subject = match checked_negate(edge.subject_delta) {
            Some(value) => value,
            None => return None,
        };
        let clip = match checked_negate(edge.clip_delta) {
            Some(value) => value,
            None => return None,
        };
        Some(WindingPair { subject, clip })
    }
}

/// Whether the probe `a0 a1` is proper and no arrangement edge but the
/// skipped one is degenerate or blocks it.
pub open spec fn probe_clear(a0: QPoint, a1: QPoint, skipped: int, arrangement: Seq<ArrangementEdge>) -> bool {
    !qp_same(a0, a1) && forall|i: int|
        0 <= i < arrangement.len() && i != skipped ==> !qp_same(
            (#[trigger] arrangement[i]).start.qp(),
            arrangement[i].end.qp(),
        ) && !probe_blocked(a0, a1, arrangement[i].start.qp(), arrangement[i].end.qp())
}

/// `epsilon` halved `count` times.
pub open spec fn halved(epsilon: Q, count: nat) -> Q
    decreases count,
{
    if count == 0 {
        epsilon
    } else {
        let previous = halved(epsilon, (count - 1) as nat);
        (previous.0, previous.1 * 2)
    }
}

/// Whether the probe beside half-edge `h` at distance `epsilon` is clear,
/// both of its ends have windings, and the windings change across the edge
/// as the edge's own changes say.
pub open spec fn face_sample_fits(
    h: int,
    arrangement: Seq<ArrangementEdge>,
    subjects: Seq<Vec<ExactPoint>>,
    clips: Seq<Vec<ExactPoint>>,
    epsilon: Q,
) -> bool {
    let edge = arrangement[h / 2];
    let start = if h % 2 == 0 { edge.start.qp() } else { edge.end.qp() };
    let end = if h % 2 == 0 { edge.end.qp() } else { edge.start.qp() };
    let left = left_sample(start, end, epsilon);
    let right = right_sample(start, end, epsilon);
    &&& probe_clear(left, right, h / 2, arrangement)
    &&& paths_winding(left, subjects) is Some
    &&& paths_winding(left, clips) is Some
    &&& paths_winding(right, subjects) is Some
    &&& paths_winding(right, clips) is Some
    &&& (paths_winding(left, subjects)->0 - paths_winding(right, subjects)->0, paths_winding(left, clips)->0
        - paths_winding(right, clips)->0) == half_edge_change(edge, h)
}

/// Whether the probe beside half-edge `h` at distance `epsilon` is clear,
/// both of its ends have windings, and a change of winding across it does
/// not fit in an `i128`.
pub open spec fn face_sample_overflows(
    h: int,
    arrangement: Seq<ArrangementEdge>,
    subjects: Seq<Vec<ExactPoint>>,
    clips: Seq<Vec<ExactPoint>>,
    epsilon: Q,
) -> bool {
    let edge = arrangement[h / 2];
    let start = if h % 2 == 0 { edge.start.qp() } else { edge.end.qp() };
    let end = if h % 2 == 0 { edge.end.qp() } else { edge.start.qp() };
    let left = left_sample(start, end, epsilon);
    let right = right_sample(start, end, epsilon);
    &&& probe_clear(left, right, h / 2, arrangement)
    &&& paths_winding(left, subjects) is Some
    &&& paths_winding(left, clips) is Some
    &&& paths_winding(right, subjects) is Some
    &&& paths_winding(right, clips) is Some
    &&& !(i128::MIN <= paths_winding(left, subjects)->0 - paths_winding(right, subjects)->0 <= i128::MAX
        && i128::MIN <= paths_winding(left, clips)->0 - paths_winding(right, clips)->0 <= i128::MAX)
}

/// Whether `point` lies on the segment `a0 a1` strictly between its ends.
pub open spec fn strictly_on_segment(point: QPoint, a0: QPoint, a1: QPoint) -> bool {
    qp_on_segment(point, a0, a1) && !q_end_parameter(segment_parameter(point, a0, a1))
}

/// Whether the segment `b0 b1` blocks a probe along `a0 a1`: it crosses the
/// probe other than at shared endpoints, or it lies on the probe's line with
/// an endpoint of one strictly inside the other.
pub open spec fn probe_blocked(a0: QPoint, a1: QPoint, b0: QPoint, b1: QPoint) -> bool {
    if segments_on_one_line(a0, a1, b0, b1) {
        &&& qbox_touch(segment_qbox(a0, a1), segment_qbox(b0, b1))
        &&& strictly_on_segment(b0, a0, a1) || strictly_on_segment(b1, a0, a1) || strictly_on_segment(a0, b0, b1)
            || strictly_on_segment(a1, b0, b1)
    } else {
        segments_intersect(a0, a1, b0, b1)
    }
}

/// Whether the probe segment meets no arrangement edge except `skipped`.
pub fn probe_is_clear(
    start: &ExactPoint,
    end: &ExactPoint,
    skipped: usize,
    arrangement: &Vec<ArrangementEdge>,
) -> (result: bool)
    requires
        start.wf(),
        end.wf(),
        arrangement_wf(arrangement@),
    ensures
        result == probe_clear(start.qp(), end.qp(), skipped as int, arrangement@),
{
    if start.equals(end) {
        return false;
    }
    let probe = Edge::new(start.copy(), end.copy());
    let mut index: usize = 0;
    while index < arrangement.len()
        invariant
            probe.wf(),
            probe.proper(),
            probe.start.qp() == start.qp(),
            probe.end.qp() == end.qp(),
            arrangement_wf(arrangement@),
            index <= arrangement@.len(),
            forall|i: int|
                0 <= i < index && i != skipped ==> !qp_same(
                    (#[trigger] arrangement@[i]).start.qp(),
                    arrangement@[i].end.qp(),
                ) && !probe_blocked(start.qp(), end.qp(), arrangement@[i].start.qp(), arrangement@[i].end.qp()),
        decreases arrangement@.len() - index,
    {
        if index != skipped {
            proof {
                assert(arrangement@[index as int].start.wf());
            }
            let edge = &arrangement[index];
            if edge.start.equals(&edge.end) {
                return false;
            }
            let other = Edge::new(edge.start.copy(), edge.end.copy());
            let mut probe_parameters = unit_endpoints();
            let mut edge_parameters = unit_endpoints();
            let ghost first_initial = probe_parameters@;
            let ghost second_initial = edge_parameters@;
            split_edge_pair(&probe, &other, &mut probe_parameters, &mut edge_parameters);
            proof {
                let (a0, a1, b0, b1) = (start.qp(), end.qp(), edge.start.qp(), edge.end.qp());
                let (t, u) = crossing_parameters(a0, a1, b0, b1);
                lemma_present_in_unit_endpoints(first_initial, t);
                lemma_present_in_unit_endpoints(second_initial, u);
                lemma_present_in_unit_endpoints(first_initial, segment_parameter(b0, a0, a1));
                lemma_present_in_unit_endpoints(first_initial, segment_parameter(b1, a0, a1));
                lemma_present_in_unit_endpoints(second_initial, segment_parameter(a0, b0, b1));
                lemma_present_in_unit_endpoints(second_initial, segment_parameter(a1, b0, b1));
                assert((probe_parameters@.len() != 2 || edge_parameters@.len() != 2) == probe_blocked(a0, a1, b0, b1));
            }
            if probe_parameters.len() != 2 || edge_parameters.len() != 2 {
                return false;
            }
        }
        index += 1;
    }
    true
}

/// The winding pairs just left and right of half-edge `h`, certified by a
/// clear probe and by their difference matching the edge's winding change.
/// The probe distance is halved up to [`MAX_FACE_SAMPLE_REFINEMENTS`] times;
/// `None` when no probe is certified.
#[verifier::spinoff_prover]
pub fn sample_face_pair(
    h: usize,
    arrangement: &Vec<ArrangementEdge>,
    subjects: &[Vec<ExactPoint>],
    clips: &[Vec<ExactPoint>],
    initial_epsilon: &Rational,
) -> (result: Option<(WindingPair, WindingPair)>)
    requires
        h / 2 < arrangement@.len(),
        arrangement_wf(arrangement@),
        paths_wf(subjects@),
        paths_wf(clips@),
        edge_count(subjects@, subjects@.len() as nat) <= i128::MAX,
        edge_count(clips@, clips@.len() as nat) <= i128::MAX,
        initial_epsilon.wf(),
    ensures
        result matches Some((left, right)) ==> (left.subject - right.subject, left.clip - right.clip)
            == half_edge_change(arrangement@[h as int / 2], h as int),
        result is Some <==> (h % 2 == 0 || (arrangement@[h as int / 2].subject_delta != i128::MIN
            && arrangement@[h as int / 2].clip_delta != i128::MIN)) && exists|a: nat|
            a <= MAX_FACE_SAMPLE_REFINEMENTS && #[trigger] face_sample_fits(
                h as int,
                arrangement@,
                subjects@,
                clips@,
                halved(initial_epsilon.q(), a),
            ) && forall|b: nat| b < a ==> !#[trigger] face_sample_overflows(
                h as int,
                arrangement@,
                subjects@,
                clips@,
                halved(initial_epsilon.q(), b),
            ),
{
    let start = half_edge_start(arrangement, h);
    let end = half_edge_end(arrangement, h);
    let expected = match half_edge_delta(arrangement, h) {
        Some(delta) => delta,
        None => return None,
    };
    let expected_subject = expected.subject;
    let expected_clip = expected.clip;
    let skipped = h / 2;
    let two = Rational::from_i64(2);
    let mut epsilon = initial_epsilon.copy();
    let mut attempt: usize = 0;
    while attempt <= MAX_FACE_SAMPLE_REFINEMENTS
        invariant
            start.wf(),
            end.wf(),
            epsilon.wf(),
            two.wf(),
            two.num() == 2,
            two.den() == 1,
            arrangement_wf(arrangement@),
            paths_wf(subjects@),
            paths_wf(clips@),
            edge_count(subjects@, subjects@.len() as nat) <= i128::MAX,
            edge_count(clips@, clips@.len() as nat) <= i128::MAX,
            h / 2 < arrangement@.len(),
            (expected_subject as int, expected_clip as int) == half_edge_change(arrangement@[h as int / 2], h as int),
            start.qp() == (if h % 2 == 0 { arrangement@[h as int / 2].start.qp() } else { arrangement@[h as int / 2].end.qp() }),
            end.qp() == (if h % 2 == 0 { arrangement@[h as int / 2].end.qp() } else { arrangement@[h as int / 2].start.qp() }),
            epsilon.q() == halved(initial_epsilon.q(), attempt as nat),
            skipped == h / 2,
            forall|a: nat| a < attempt ==> !#[trigger] face_sample_fits(
                h as int,
                arrangement@,
                subjects@,
                clips@,
                halved(initial_epsilon.q(), a),
            ),
            forall|a: nat| a < attempt ==> !#[trigger] face_sample_overflows(
                h as int,
                arrangement@,
                subjects@,
                clips@,
                halved(initial_epsilon.q(), a),
            ),
            h % 2 == 0 || (arrangement@[h as int / 2].subject_delta != i128::MIN
                && arrangement@[h as int / 2].clip_delta != i128::MIN),
        decreases MAX_FACE_SAMPLE_REFINEMENTS + 1 - attempt,
    {
        let (left, right) = side_samples(start, end, &epsilon);
        if probe_is_clear(&left, &right, skipped, arrangement) {
            let left_subject = paths_winding_at(&left, subjects);
            let left_clip = paths_winding_at(&left, clips);
            let right_subject = paths_winding_at(&right, subjects);
            let right_clip = paths_winding_at(&right, clips);
            match (left_subject, left_clip, right_subject, right_clip) {
                (Some(ls), Some(lc), Some(rs), Some(rc)) => {
                    let subject_change = match ls.checked_sub(rs) {
                        Some(value) => value,
                        None => {
                            proof {
                                let e = halved(initial_epsilon.q(), attempt as nat);
                                let edge = arrangement@[h as int / 2];
                                let st = if h % 2 == 0 { edge.start.qp() } else { edge.end.qp() };
                                let en = if h % 2 == 0 { edge.end.qp() } else { edge.start.qp() };
                                assert(left.qp() == left_sample(st, en, e));
                                assert(right.qp() == right_sample(st, en, e));
                                assert(probe_clear(left.qp(), right.qp(), skipped as int, arrangement@));
                                assert(skipped as int == h as int / 2);
                                assert(paths_winding(left.qp(), subjects@) == Some(ls as int));
                                assert(paths_winding(right.qp(), subjects@) == Some(rs as int));
                                assert(paths_winding(left.qp(), clips@) == Some(lc as int));
                                assert(paths_winding(right.qp(), clips@) == Some(rc as int));
                                assert(face_sample_overflows(h as int, arrangement@, subjects@, clips@, e));
                                assert forall|a: nat|
                                    a <= MAX_FACE_SAMPLE_REFINEMENTS && #[trigger] face_sample_fits(
                                        h as int,
                                        arrangement@,
                                        subjects@,
                                        clips@,
                                        halved(initial_epsilon.q(), a),
                                    ) implies exists|b: nat| b < a && #[trigger] face_sample_overflows(
                                        h as int,
                                        arrangement@,
                                        subjects@,
                                        clips@,
                                        halved(initial_epsilon.q(), b),
                                    ) by {
                                    if a > attempt {
                                        assert(face_sample_overflows(h as int, arrangement@, subjects@, clips@, halved(initial_epsilon.q(), attempt as nat)));
                                    }
                                }
                            }
                            return None;
                        },
                    };
                    let clip_change = match lc.checked_sub(rc) {
                        Some(value) => value,
                        None => {
                            proof {
                                let e = halved(initial_epsilon.q(), attempt as nat);
                                let edge = arrangement@[h as int / 2];
                                let st = if h % 2 == 0 { edge.start.qp() } else { edge.end.qp() };
                                let en = if h % 2 == 0 { edge.end.qp() } else { edge.start.qp() };
                                assert(left.qp() == left_sample(st, en, e));
                                assert(right.qp() == right_sample(st, en, e));
                                assert(probe_clear(left.qp(), right.qp(), skipped as int, arrangement@));
                                assert(skipped as int == h as int / 2);
                                assert(paths_winding(left.qp(), subjects@) == Some(ls as int));
                                assert(paths_winding(right.qp(), subjects@) == Some(rs as int));
                                assert(paths_winding(left.qp(), clips@) == Some(lc as int));
                                assert(paths_winding(right.qp(), clips@) == Some(rc as int));
                                assert(face_sample_overflows(h as int, arrangement@, subjects@, clips@, e));
                                assert forall|a: nat|
                                    a <= MAX_FACE_SAMPLE_REFINEMENTS && #[trigger] face_sample_fits(
                                        h as int,
                                        arrangement@,
                                        subjects@,
                                        clips@,
                                        halved(initial_epsilon.q(), a),
                                    ) implies exists|b: nat| b < a && #[trigger] face_sample_overflows(
                                        h as int,
                                        arrangement@,
                                        subjects@,
                                        clips@,
                                        halved(initial_epsilon.q(), b),
                                    ) by {
                                    if a > attempt {
                                        assert(face_sample_overflows(h as int, arrangement@, subjects@, clips@, halved(initial_epsilon.q(), attempt as nat)));
                                    }
                                }
                            }
                            return None;
                        },
                    };
                    if subject_change == expected_subject && clip_change == expected_clip {
                        proof {
                            assert(face_sample_fits(h as int, arrangement@, subjects@, clips@, halved(initial_epsilon.q(), attempt as nat)));
                        }
                        return Some(
                            (
                                WindingPair { subject: ls, clip: lc },
                                WindingPair { subject: rs, clip: rc },
                            ),
                        );
                    }
                },
                _ => {},
            }
        }
        proof {
            assert(!face_sample_fits(h as int, arrangement@, subjects@, clips@, halved(initial_epsilon.q(), attempt as nat)));
            assert(!face_sample_overflows(h as int, arrangement@, subjects@, clips@, halved(initial_epsilon.q(), attempt as nat)));
        }
        epsilon = epsilon.div(&two);
        proof {
            assert(halved(initial_epsilon.q(), (attempt + 1) as nat) == (halved(initial_epsilon.q(), attempt as nat).0,
                halved(initial_epsilon.q(), attempt as nat).1 * 2));
        }
        attempt += 1;
    }
    None
}

/// One face adjacency: crossing into `neighbor` adds the deltas.
#[derive(Clone, Copy)]
struct FaceLink {
    neighbor: usize,
    subject_delta: i128,
    clip_delta: i128,
}

/// Every link points to a face below `bound`.
spec fn links_bounded(links: Seq<Vec<FaceLink>>, bound: usize) -> bool {
    forall|k: int, m: int|
        0 <= k < links.len() && 0 <= m < links[k]@.len() ==> (#[trigger] links[k]@[m]).neighbor < bound
}

/// A link list that only grew still holds its links.
proof fn lemma_has_link_grows(before: Seq<FaceLink>, after: Seq<FaceLink>, neighbor: usize, subject_delta: int, clip_delta: int)
    requires
        has_link(before, neighbor, subject_delta, clip_delta),
        before.len() <= after.len(),
        forall|m: int| 0 <= m < before.len() ==> #[trigger] after[m] == before[m],
    ensures
        has_link(after, neighbor, subject_delta, clip_delta),
{
    let m = choose|m: int|
        0 <= m < before.len() && (#[trigger] before[m]).neighbor == neighbor && before[m].subject_delta == subject_delta
            && before[m].clip_delta == clip_delta;
    assert(after[m] == before[m]);
}

/// Pushing one link onto the lists of two faces keeps every list's earlier
/// links.
proof fn lemma_links_grow(before: Seq<Vec<FaceLink>>, after: Seq<Vec<FaceLink>>, left: int, right: int)
    requires
        after.len() == before.len(),
        0 <= left < before.len(),
        0 <= right < before.len(),
        left != right,
        forall|f: int| 0 <= f < before.len() && f != left && f != right ==> #[trigger] after[f] == before[f],
        after[left]@ == before[left]@.push(after[left]@.last()),
        after[right]@ == before[right]@.push(after[right]@.last()),
    ensures
        forall|f: int, m: int|
            0 <= f < before.len() && 0 <= m < before[f]@.len() ==> m < after[f]@.len() && #[trigger] after[f]@[m]
                == before[f]@[m],
{
    assert forall|f: int, m: int| 0 <= f < before.len() && 0 <= m < before[f]@.len() implies m < after[f]@.len()
        && #[trigger] after[f]@[m] == before[f]@[m] by {
        if f == left {
            assert(after[left]@[m] == before[left]@[m]);
        } else if f == right {
            assert(after[right]@[m] == before[right]@[m]);
        } else {
            assert(after[f] == before[f]);
        }
    }
}

/// The face list holds a link to `neighbor` with the given deltas.
spec fn has_link(links: Seq<FaceLink>, neighbor: usize, subject_delta: int, clip_delta: int) -> bool {
    exists|m: int|
        0 <= m < links.len() && (#[trigger] links[m]).neighbor == neighbor && links[m].subject_delta == subject_delta
            && links[m].clip_delta == clip_delta
}

/// Every edge among the first `n` links its left face to its right face
/// with the negated deltas, and its right face to its left face with the
/// deltas.
spec fn edges_linked(arrangement: Seq<ArrangementEdge>, face_of: Seq<usize>, links: Seq<Vec<FaceLink>>, n: int) -> bool {
    forall|k: int|
        0 <= k < n ==> has_link(
            links[face_of[2 * k] as int]@,
            face_of[2 * k + 1],
            -(#[trigger] arrangement[k]).subject_delta,
            -arrangement[k].clip_delta,
        ) && has_link(
            links[face_of[2 * k + 1] as int]@,
            face_of[2 * k],
            arrangement[k].subject_delta as int,
            arrangement[k].clip_delta as int,
        )
}

/// The face's label and each linked face's label differ by the link's
/// deltas.
spec fn face_settled(labels: Seq<Option<WindingPair>>, links: Seq<FaceLink>, face: int) -> bool {
    labels[face] matches Some(w) && forall|m: int|
        0 <= m < links.len() ==> (labels[(#[trigger] links[m]).neighbor as int] matches Some(v) && v.subject
            == w.subject + links[m].subject_delta && v.clip == w.clip + links[m].clip_delta)
}

/// `face` waits in the queue at or after `head`.
spec fn queued(queue: Seq<usize>, head: int, face: int) -> bool {
    exists|j: int| head <= j < queue.len() && #[trigger] queue[j] == face
}

/// Every labelled face but `except` is settled or still waits in the queue.
spec fn settled_or_queued(
    labels: Seq<Option<WindingPair>>,
    links: Seq<Vec<FaceLink>>,
    queue: Seq<usize>,
    head: int,
    except: int,
) -> bool {
    forall|f: int|
        0 <= f < labels.len() && f < links.len() && (#[trigger] labels[f]) is Some && f != except ==> face_settled(
            labels,
            links[f]@,
            f,
        ) || queued(queue, head, f)
}

/// Labels only gain entries: a face labelled before keeps its label.
spec fn labels_grew(before: Seq<Option<WindingPair>>, after: Seq<Option<WindingPair>>) -> bool {
    &&& after.len() == before.len()
    &&& forall|g: int| 0 <= g < before.len() && (#[trigger] before[g]) is Some ==> after[g] == before[g]
}

/// A settled face stays settled while labels only gain entries.
proof fn lemma_settled_grows(
    before: Seq<Option<WindingPair>>,
    after: Seq<Option<WindingPair>>,
    links: Seq<FaceLink>,
    face: int,
)
    requires
        labels_grew(before, after),
        0 <= face < before.len(),
        face_settled(before, links, face),
        forall|m: int| 0 <= m < links.len() ==> (#[trigger] links[m]).neighbor < before.len(),
    ensures
        face_settled(after, links, face),
{
    assert(after[face] == before[face]);
    assert forall|m: int| 0 <= m < links.len() implies (after[(#[trigger] links[m]).neighbor as int] matches Some(v)
        && v.subject == after[face]->Some_0.subject + links[m].subject_delta && v.clip == after[face]->Some_0.clip
        + links[m].clip_delta) by {
        assert(before[links[m].neighbor as int] is Some);
        assert(after[links[m].neighbor as int] == before[links[m].neighbor as int]);
    }
}

/// One labelling step, which labels and queues a new face or changes
/// nothing, keeps every labelled face settled or queued.
proof fn lemma_label_step(
    before: Seq<Option<WindingPair>>,
    after: Seq<Option<WindingPair>>,
    queue_before: Seq<usize>,
    queue_after: Seq<usize>,
    links: Seq<Vec<FaceLink>>,
    head: int,
    except: int,
    face: usize,
    winding: WindingPair,
)
    requires
        face < before.len(),
        before.len() == links.len(),
        links_bounded(links, before.len() as usize),
        0 <= head <= queue_before.len(),
        settled_or_queued(before, links, queue_before, head, except),
        match before[face as int] {
            Some(_) => after == before && queue_after == queue_before,
            None => after == before.update(face as int, Some(winding)) && queue_after == queue_before.push(face),
        },
    ensures
        labels_grew(before, after),
        settled_or_queued(after, links, queue_after, head, except),
        after[face as int] is Some,
{
    let fresh = before[face as int] is None;
    if fresh {
        assert(queue_after == queue_before.push(face));
        assert(queue_after[queue_before.len() as int] == face);
    } else {
        assert(queue_after == queue_before);
    }
    assert forall|j: int| 0 <= j < queue_before.len() implies #[trigger] queue_after[j] == queue_before[j] by {
    }
    assert(labels_grew(before, after));
    assert forall|f: int|
        0 <= f < after.len() && f < links.len() && (#[trigger] after[f]) is Some && f != except implies face_settled(
        after,
        links[f]@,
        f,
    ) || queued(queue_after, head, f) by {
        if before[f] is None {
            assert(f == face);
            assert(queue_after[queue_before.len() as int] == face);
            assert(queued(queue_after, head, f));
        } else if queued(queue_before, head, f) {
            let j = choose|j: int| head <= j < queue_before.len() && #[trigger] queue_before[j] == f;
            assert(queue_after[j] == queue_before[j]);
        } else {
            assert forall|m: int| 0 <= m < links[f]@.len() implies (#[trigger] links[f]@[m]).neighbor < before.len() by {
                assert(links[f]@[m].neighbor < before.len());
            }
            lemma_settled_grows(before, after, links[f]@, f);
        }
    }
}

/// The labels of the two faces of every edge differ by its deltas: the
/// right face's label is the left face's minus the edge's deltas.
pub open spec fn labels_consistent(
    arrangement: Seq<ArrangementEdge>,
    face_of: Seq<usize>,
    labels: Seq<Option<WindingPair>>,
) -> bool {
    forall|k: int|
        0 <= k < arrangement.len() ==> (labels[face_of[2 * k] as int] matches Some(l) && labels[face_of[2 * k
            + 1] as int] matches Some(r) && r.subject == l.subject - (#[trigger] arrangement[k]).subject_delta
            && r.clip == l.clip - arrangement[k].clip_delta)
}

/// Whether a face with this label belongs to the result.
pub open spec fn face_kept(label: Option<WindingPair>, clip_type: ClipType, fill_rule: FillRule) -> bool {
    match label {
        Some(w) => apply_operation_spec(
            winding_contains_spec(w.subject as int, fill_rule),
            winding_contains_spec(w.clip as int, fill_rule),
            clip_type,
        ),
        None => false,
    }
}

/// The edges among the first `n` whose two faces differ in membership, in
/// order, each directed with the kept face on its left.
pub open spec fn face_boundary(
    arrangement: Seq<ArrangementEdge>,
    face_of: Seq<usize>,
    labels: Seq<Option<WindingPair>>,
    clip_type: ClipType,
    fill_rule: FillRule,
    n: nat,
) -> Seq<(QPoint, QPoint)>
    decreases n,
{
    if n == 0 {
        Seq::empty()
    } else {
        let before = face_boundary(arrangement, face_of, labels, clip_type, fill_rule, (n - 1) as nat);
        let k = n - 1;
        let e = arrangement[k];
        let left = face_kept(labels[face_of[2 * k] as int], clip_type, fill_rule);
        let right = face_kept(labels[face_of[2 * k + 1] as int], clip_type, fill_rule);
        if left == right {
            before
        } else if left {
            before.push((e.start.qp(), e.end.qp()))
        } else {
            before.push((e.end.qp(), e.start.qp()))
        }
    }
}

/// The directed edges as pairs of rational points.
pub open spec fn directed_qps(directed: Seq<DirectedEdge>) -> Seq<(QPoint, QPoint)> {
    directed.map_values(|d: DirectedEdge| (d.start.qp(), d.end.qp()))
}

/// The directed edges are the boundary of a labelling of the arrangement's
/// faces: the arrangement merges the atomic edges, every face of an edge is
/// labelled, labels across each edge differ by its deltas, and the edges
/// kept are those whose faces differ in membership, kept face on the left.
pub open spec fn labelled_boundary(
    atomic: Seq<AtomicEdge>,
    directed: Seq<DirectedEdge>,
    arrangement: Seq<ArrangementEdge>,
    face_of: Seq<usize>,
    labels: Seq<Option<WindingPair>>,
    clip_type: ClipType,
    fill_rule: FillRule,
) -> bool {
    &&& merged_totals(arrangement, atomic)
    &&& face_of.len() == 2 * arrangement.len()
    &&& forall|h: int| 0 <= h < face_of.len() ==> (#[trigger] face_of[h]) < labels.len()
    &&& labels_consistent(arrangement, face_of, labels)
    &&& directed_qps(directed) == face_boundary(arrangement, face_of, labels, clip_type, fill_rule, arrangement.len())
}

/// The directed edges are exactly the atomic edges whose two sides, sampled
/// just left and just right, differ in membership under the operation and
/// fill rule, each directed with the kept side on its left.
pub open spec fn sampled_boundary(
    atomic: Seq<AtomicEdge>,
    directed: Seq<DirectedEdge>,
    subjects: Seq<Vec<ExactPoint>>,
    clips: Seq<Vec<ExactPoint>>,
    clip_type: ClipType,
    fill_rule: FillRule,
    epsilon: Q,
) -> bool {
    &&& forall|k: int|
        0 <= k < directed.len() ==> sampled_edge(atomic, #[trigger] directed[k], subjects, clips, clip_type, fill_rule, epsilon)
    &&& forall|i: int|
        0 <= i < atomic.len() ==> match #[trigger] sampled_orientation(
            atomic[i],
            subjects,
            clips,
            clip_type,
            fill_rule,
            epsilon,
        ) {
            Some((start, end)) => directed_listed(directed, start, end),
            None => true,
        }
}

/// The boundary of the result along the atomic edges, decided by the
/// operation under the fill rule: from a consistent labelling of the faces,
/// or, edge by edge, from the inputs' windings just either side.
pub open spec fn boundary_by_rule(
    atomic: Seq<AtomicEdge>,
    directed: Seq<DirectedEdge>,
    subjects: Seq<Vec<ExactPoint>>,
    clips: Seq<Vec<ExactPoint>>,
    clip_type: ClipType,
    fill_rule: FillRule,
    epsilon: Q,
) -> bool {
    ||| exists|arrangement: Seq<ArrangementEdge>, face_of: Seq<usize>, labels: Seq<Option<WindingPair>>|
        #[trigger] labelled_boundary(atomic, directed, arrangement, face_of, labels, clip_type, fill_rule)
    ||| sampled_boundary(atomic, directed, subjects, clips, clip_type, fill_rule, epsilon)
}

/// Labels `face` with `winding`, queueing it when it was unlabelled; `false`
/// when it already carries a different label.
pub fn assign_face_label(
    labels: &mut Vec<Option<WindingPair>>,
    face: usize,
    winding: WindingPair,
    queue: &mut Vec<usize>,
) -> (consistent: bool)
    requires
        face < old(labels)@.len(),
    ensures
        final(labels)@.len() == old(labels)@.len(),
        consistent == match old(labels)@[face as int] {
            Some(current) => current == winding,
            None => true,
        },
        match old(labels)@[face as int] {
            Some(_) => final(labels)@ == old(labels)@ && final(queue)@ == old(queue)@,
            None => final(labels)@ == old(labels)@.update(face as int, Some(winding))
                && final(queue)@ == old(queue)@.push(face),
        },
{
    match labels[face] {
        Some(current) => current == winding,
        None => {
            labels.set(face, Some(winding));
            queue.push(face);
            true
        },
    }
}

/// The boundary of the result along the atomic edges: by face labelling,
/// or, when the faces cannot be certified, by sampling each atomic edge.
pub fn select_atomic_boundary(
    atomic_edges: &Vec<AtomicEdge>,
    subjects: &[Vec<ExactPoint>],
    clips: &[Vec<ExactPoint>],
    clip_type: ClipType,
    fill_rule: FillRule,
    epsilon: &Rational,
) -> (directed: Vec<DirectedEdge>)
    requires
        atomic_wf(atomic_edges@),
        paths_wf(subjects@),
        paths_wf(clips@),
        edge_count(subjects@, subjects@.len() as nat) <= i128::MAX,
        edge_count(clips@, clips@.len() as nat) <= i128::MAX,
        epsilon.wf(),
    ensures
        directed_wf(directed@),
        forall|k: int|
            0 <= k < directed@.len() ==> along_atomic(
                atomic_edges@,
                (#[trigger] directed@[k]).start.qp(),
                directed@[k].end.qp(),
            ),
        boundary_by_rule(atomic_edges@, directed@, subjects@, clips@, clip_type, fill_rule, epsilon.q()),
{
    match try_face_boundary(atomic_edges, subjects, clips, clip_type, fill_rule, epsilon) {
        Some(directed) => directed,
        None => {
            let directed = sample_atomic_boundary(atomic_edges, subjects, clips, clip_type, fill_rule, epsilon);
            proof {
                assert forall|k: int| 0 <= k < directed@.len() implies along_atomic(
                    atomic_edges@,
                    (#[trigger] directed@[k]).start.qp(),
                    directed@[k].end.qp(),
                ) by {
                    let d = directed@[k];
                    assert(sampled_edge(atomic_edges@, d, subjects@, clips@, clip_type, fill_rule, epsilon.q()));
                    let i = choose|i: int|
                        0 <= i < atomic_edges@.len() && #[trigger] sampled_from(
                            atomic_edges@,
                            i,
                            d,
                            subjects@,
                            clips@,
                            clip_type,
                            fill_rule,
                            epsilon.q(),
                        );
                    assert(atomic_edges@[i].start.qp() == d.start.qp() && atomic_edges@[i].end.qp() == d.end.qp()
                        || atomic_edges@[i].start.qp() == d.end.qp() && atomic_edges@[i].end.qp() == d.start.qp());
                }
                assert(sampled_boundary(atomic_edges@, directed@, subjects@, clips@, clip_type, fill_rule, epsilon.q()));
            }
            directed
        },
    }
}

/// Labels every arrangement face with its subject and clip windings, seeding
/// each connected component by one certified sample and propagating the
/// edge deltas, and returns the edges between faces of different membership.
/// `None` when a component cannot be certified or labels disagree.
#[verifier::spinoff_prover]
pub fn try_face_boundary(
    atomic_edges: &Vec<AtomicEdge>,
    subjects: &[Vec<ExactPoint>],
    clips: &[Vec<ExactPoint>],
    clip_type: ClipType,
    fill_rule: FillRule,
    epsilon: &Rational,
) -> (result: Option<Vec<DirectedEdge>>)
    requires
        atomic_wf(atomic_edges@),
        paths_wf(subjects@),
        paths_wf(clips@),
        edge_count(subjects@, subjects@.len() as nat) <= i128::MAX,
        edge_count(clips@, clips@.len() as nat) <= i128::MAX,
        epsilon.wf(),
    ensures
        result matches Some(directed) ==> directed_wf(directed@),
        result matches Some(directed) ==> forall|k: int|
            0 <= k < directed@.len() ==> along_atomic(
                atomic_edges@,
                (#[trigger] directed@[k]).start.qp(),
                directed@[k].end.qp(),
            ),
        atomic_cancels(atomic_edges@) ==> (result matches Some(directed) && directed@.len() == 0),
        result is Some ==> exists|
            arrangement: Seq<ArrangementEdge>,
            face_of: Seq<usize>,
            labels: Seq<Option<WindingPair>>,
        |
            #[trigger] labelled_boundary(
                atomic_edges@,
                result->Some_0@,
                arrangement,
                face_of,
                labels,
                clip_type,
                fill_rule,
            ),
{
    let arrangement = match merge_atomic_edges(atomic_edges) {
        Some(edges) => edges,
        None => return None,
    };
    assert(atomic_cancels(atomic_edges@) ==> arrangement@.len() == 0) by {
        if atomic_cancels(atomic_edges@) && arrangement@.len() > 0 {
            let e = arrangement@[0];
            let n = atomic_edges@.len();
            assert(merged_totals(arrangement@, atomic_edges@));
            assert(e.start.wf() && e.end.wf());
            let s = e.subject_delta != 0;
            assert(atomic_total(atomic_edges@, e.start, e.end, s, n) != 0);
            lemma_total_witness(atomic_edges@, e.start, e.end, s, n);
            let k = choose|k: int| 0 <= k < n && #[trigger] atomic_change(atomic_edges@[k], e.start, e.end, s) != 0;
            let a = atomic_edges@[k];
            assert(a.start.wf() && a.end.wf());
            lemma_total_same_key(atomic_edges@, atomic_low(a), atomic_high(a), e.start, e.end, s, n);
            assert(atomic_total(atomic_edges@, atomic_low(a), atomic_high(a), s, n) == 0);
        }
    }
    if arrangement.len() == 0 {
        let directed: Vec<DirectedEdge> = Vec::new();
        proof {
            assert(directed_qps(directed@) =~= Seq::<(QPoint, QPoint)>::empty());
            assert(labelled_boundary(
                atomic_edges@,
                directed@,
                arrangement@,
                Seq::<usize>::empty(),
                Seq::<Option<WindingPair>>::empty(),
                clip_type,
                fill_rule,
            ));
            let ghost returned: Option<Vec<DirectedEdge>> = Some(directed);
            assert(returned->Some_0@ == directed@);
        }
        return Some(directed);
    }
    let (face_of, seeds) = match build_face_cycles(&arrangement) {
        Some(faces) => faces,
        None => return None,
    };
    let face_count = seeds.len();
    let mut links: Vec<Vec<FaceLink>> = Vec::new();
    let mut f: usize = 0;
    while f < face_count
        invariant
            !atomic_cancels(atomic_edges@),
            f <= face_count,
            links@.len() == f,
            links_bounded(links@, face_count),
        decreases face_count - f,
    {
        links.push(Vec::new());
        f += 1;
    }
    let total = face_of.len();
    let mut index: usize = 0;
    while index < arrangement.len()
        invariant
            !atomic_cancels(atomic_edges@),
            total == face_of@.len(),
            face_of@.len() == 2 * arrangement@.len(),
            forall|h: int| 0 <= h < face_of@.len() ==> #[trigger] face_of@[h] < face_count,
            face_count == seeds@.len(),
            links@.len() == face_count,
            links_bounded(links@, face_count),
            index <= arrangement@.len(),
            edges_linked(arrangement@, face_of@, links@, index as int),
        decreases arrangement@.len() - index,
    {
        let left = face_of[2 * index];
        let right = face_of[2 * index + 1];
        if left == right {
            return None;
        }
        let edge = &arrangement[index];
        let negated_subject = match checked_negate(edge.subject_delta) {
            Some(value) => value,
            None => return None,
        };
        let negated_clip = match checked_negate(edge.clip_delta) {
            Some(value) => value,
            None => return None,
        };
        let ghost before = links@;
        let mut left_links: Vec<FaceLink> = Vec::new();
        links.set_and_swap(left, &mut left_links);
        left_links.push(FaceLink { neighbor: right, subject_delta: negated_subject, clip_delta: negated_clip });
        links.set_and_swap(left, &mut left_links);
        let mut right_links: Vec<FaceLink> = Vec::new();
        links.set_and_swap(right, &mut right_links);
        right_links.push(FaceLink { neighbor: left, subject_delta: edge.subject_delta, clip_delta: edge.clip_delta });
        links.set_and_swap(right, &mut right_links);
        proof {
            lemma_links_grow(before, links@, left as int, right as int);
            let i = index as int;
            assert(face_of@[2 * i] == left && face_of@[2 * i + 1] == right);
            assert(links@[left as int]@[before[left as int]@.len() as int].neighbor == right);
            assert(has_link(links@[left as int]@, right, -arrangement@[i].subject_delta, -arrangement@[i].clip_delta));
            assert(links@[right as int]@[links@[right as int]@.len() - 1].neighbor == left);
            assert(has_link(
                links@[right as int]@,
                left,
                arrangement@[i].subject_delta as int,
                arrangement@[i].clip_delta as int,
            ));
            assert forall|k: int| 0 <= k < index + 1 implies has_link(
                links@[face_of@[2 * k] as int]@,
                face_of@[2 * k + 1],
                -(#[trigger] arrangement@[k]).subject_delta,
                -arrangement@[k].clip_delta,
            ) && has_link(
                links@[face_of@[2 * k + 1] as int]@,
                face_of@[2 * k],
                arrangement@[k].subject_delta as int,
                arrangement@[k].clip_delta as int,
            ) by {
                if k < index {
                    lemma_has_link_grows(before[face_of@[2 * k] as int]@, links@[face_of@[2 * k] as int]@, face_of@[2 * k + 1], -arrangement@[k].subject_delta, -arrangement@[k].clip_delta);
                    lemma_has_link_grows(before[face_of@[2 * k + 1] as int]@, links@[face_of@[2 * k + 1] as int]@, face_of@[2 * k], arrangement@[k].subject_delta as int, arrangement@[k].clip_delta as int);
                }
            }
        }
        index += 1;
    }
    let mut labels: Vec<Option<WindingPair>> = Vec::new();
    let mut f: usize = 0;
    while f < face_count
        invariant
            !atomic_cancels(atomic_edges@),
            f <= face_count,
            labels@.len() == f,
            forall|g: int| 0 <= g < labels@.len() ==> #[trigger] labels@[g] is None,
        decreases face_count - f,
    {
        labels.push(None);
        f += 1;
    }
    let mut pops: usize = 0;
    let mut seed_face: usize = 0;
    while seed_face < face_count
        invariant
            !atomic_cancels(atomic_edges@),
            face_of@.len() == 2 * arrangement@.len(),
            forall|h: int| 0 <= h < face_of@.len() ==> #[trigger] face_of@[h] < face_count,
            face_count == seeds@.len(),
            forall|k: int| 0 <= k < seeds@.len() ==> #[trigger] seeds@[k] < face_of@.len(),
            links@.len() == face_count,
            links_bounded(links@, face_count),
            labels@.len() == face_count,
            arrangement_wf(arrangement@),
            paths_wf(subjects@),
            paths_wf(clips@),
            edge_count(subjects@, subjects@.len() as nat) <= i128::MAX,
            edge_count(clips@, clips@.len() as nat) <= i128::MAX,
            epsilon.wf(),
            seed_face <= face_count,
            pops <= face_count,
            settled_or_queued(labels@, links@, Seq::<usize>::empty(), 0, -1),
        decreases face_count - seed_face,
    {
        if labels[seed_face].is_none() {
            let h = seeds[seed_face];
            let (left_winding, right_winding) = match sample_face_pair(h, &arrangement, subjects, clips, epsilon) {
                Some(pair) => pair,
                None => return None,
            };
            let left = face_of[h];
            let t = if h % 2 == 0 {
                h + 1
            } else {
                h - 1
            };
            let right = face_of[t];
            let mut queue: Vec<usize> = Vec::new();
            let ghost labels0 = labels@;
            let ghost queue0 = queue@;
            if !assign_face_label(&mut labels, left, left_winding, &mut queue) {
                return None;
            }
            proof {
                lemma_label_step(labels0, labels@, queue0, queue@, links@, 0, -1, left, left_winding);
            }
            let ghost labels1 = labels@;
            let ghost queue1 = queue@;
            if !assign_face_label(&mut labels, right, right_winding, &mut queue) {
                return None;
            }
            proof {
                lemma_label_step(labels1, labels@, queue1, queue@, links@, 0, -1, right, right_winding);
            }
            let mut head: usize = 0;
            while head < queue.len()
                invariant
                    !atomic_cancels(atomic_edges@),
                    links@.len() == face_count,
                    links_bounded(links@, face_count),
                    labels@.len() == face_count,
                    forall|k: int| 0 <= k < queue@.len() ==> #[trigger] queue@[k] < face_count,
                    head <= queue@.len(),
                    pops <= face_count,
                    settled_or_queued(labels@, links@, queue@, head as int, -1),
                decreases face_count - pops,
            {
                if pops == face_count {
                    return None;
                }
                let face = queue[head];
                proof {
                    assert forall|f: int|
                        0 <= f < labels@.len() && f < links@.len() && (#[trigger] labels@[f]) is Some && f
                            != face implies face_settled(labels@, links@[f]@, f) || queued(queue@, head + 1, f) by {
                        if queued(queue@, head as int, f) && !face_settled(labels@, links@[f]@, f) {
                            let j = choose|j: int| head <= j < queue@.len() && #[trigger] queue@[j] == f;
                            assert(j != head);
                        }
                    }
                }
                head += 1;
                pops += 1;
                let winding = match labels[face] {
                    Some(value) => value,
                    None => return None,
                };
                let face_links = &links[face];
                let mut k: usize = 0;
                while k < face_links.len()
                    invariant
                        !atomic_cancels(atomic_edges@),
                        forall|m: int| 0 <= m < face_links@.len() ==> #[trigger] face_links@[m].neighbor < face_count,
                        labels@.len() == face_count,
                        forall|j: int| 0 <= j < queue@.len() ==> #[trigger] queue@[j] < face_count,
                        head <= queue@.len(),
                        k <= face_links@.len(),
                        face < face_count,
                        face_links@ == links@[face as int]@,
                        links@.len() == face_count,
                        links_bounded(links@, face_count),
                        labels@[face as int] == Some(winding),
                        settled_or_queued(labels@, links@, queue@, head as int, face as int),
                        forall|m: int|
                            0 <= m < k ==> (labels@[(#[trigger] face_links@[m]).neighbor as int] matches Some(v)
                                && v.subject == winding.subject + face_links@[m].subject_delta && v.clip
                                == winding.clip + face_links@[m].clip_delta),
                    decreases face_links@.len() - k,
                {
                    let link = face_links[k];
                    let subject = match winding.subject.checked_add(link.subject_delta) {
                        Some(value) => value,
                        None => return None,
                    };
                    let clip = match winding.clip.checked_add(link.clip_delta) {
                        Some(value) => value,
                        None => return None,
                    };
                    let ghost labels_before = labels@;
                    let ghost queue_before = queue@;
                    if !assign_face_label(&mut labels, link.neighbor, WindingPair { subject, clip }, &mut queue) {
                        return None;
                    }
                    proof {
                        lemma_label_step(
                            labels_before,
                            labels@,
                            queue_before,
                            queue@,
                            links@,
                            head as int,
                            face as int,
                            link.neighbor,
                            WindingPair { subject, clip },
                        );
                        assert(labels@[link.neighbor as int] == Some(WindingPair { subject, clip }));
                        assert forall|m: int|
                            0 <= m < k + 1 implies (labels@[(#[trigger] face_links@[m]).neighbor as int] matches Some(v)
                            && v.subject == winding.subject + face_links@[m].subject_delta && v.clip == winding.clip
                            + face_links@[m].clip_delta) by {
                            if m < k {
                                assert(labels_before[face_links@[m].neighbor as int] is Some);
                            }
                        }
                        assert forall|j: int| 0 <= j < queue@.len() implies #[trigger] queue@[j] < face_count by {
                            if j < queue_before.len() {
                                assert(queue@[j] == queue_before[j]);
                            }
                        }
                    }
                    k += 1;
                }
                proof {
                    assert(face_settled(labels@, links@[face as int]@, face as int));
                }
            }
            proof {
                assert forall|f: int|
                    0 <= f < labels@.len() && f < links@.len() && (#[trigger] labels@[f]) is Some && f != -1 implies face_settled(
                    labels@,
                    links@[f]@,
                    f,
                ) || queued(Seq::<usize>::empty(), 0, f) by {
                    if !face_settled(labels@, links@[f]@, f) {
                        assert(queued(queue@, head as int, f));
                        let j = choose|j: int| head <= j < queue@.len() && #[trigger] queue@[j] == f;
                    }
                }
            }
        }
        seed_face += 1;
    }
    proof {
        assert forall|k: int| 0 <= k < arrangement@.len() && (#[trigger] labels@[face_of@[2 * k] as int]) is Some implies (
        labels@[face_of@[2 * k] as int] matches Some(l) && labels@[face_of@[2 * k + 1] as int] matches Some(r)
            && r.subject == l.subject - arrangement@[k].subject_delta && r.clip == l.clip - arrangement@[k].clip_delta) by {
            let left = face_of@[2 * k] as int;
            assert(face_settled(labels@, links@[left]@, left));
            assert(has_link(
                links@[left]@,
                face_of@[2 * k + 1],
                -arrangement@[k].subject_delta,
                -arrangement@[k].clip_delta,
            ));
            let m = choose|m: int|
                0 <= m < links@[left]@.len() && (#[trigger] links@[left]@[m]).neighbor == face_of@[2 * k + 1]
                    && links@[left]@[m].subject_delta == -arrangement@[k].subject_delta && links@[left]@[m].clip_delta
                    == -arrangement@[k].clip_delta;
            assert(links@[left]@[m].neighbor == face_of@[2 * k + 1]);
        }
    }
    let mut directed: Vec<DirectedEdge> = Vec::new();
    let total = face_of.len();
    let mut index: usize = 0;
    proof {
        assert(directed_qps(directed@) =~= face_boundary(arrangement@, face_of@, labels@, clip_type, fill_rule, 0));
    }
    while index < arrangement.len()
        invariant
            forall|k: int| 0 <= k < index ==> (#[trigger] labels@[face_of@[2 * k] as int]) is Some,
            directed_qps(directed@) == face_boundary(arrangement@, face_of@, labels@, clip_type, fill_rule, index as nat),
            !atomic_cancels(atomic_edges@),
            total == face_of@.len(),
            face_of@.len() == 2 * arrangement@.len(),
            forall|h: int| 0 <= h < face_of@.len() ==> #[trigger] face_of@[h] < face_count,
            labels@.len() == face_count,
            arrangement_wf(arrangement@),
            directed_wf(directed@),
            index <= arrangement@.len(),
            forall|k: int|
                0 <= k < arrangement@.len() ==> along_atomic(
                    atomic_edges@,
                    (#[trigger] arrangement@[k]).start.qp(),
                    arrangement@[k].end.qp(),
                ),
            forall|k: int|
                0 <= k < directed@.len() ==> along_atomic(
                    atomic_edges@,
                    (#[trigger] directed@[k]).start.qp(),
                    directed@[k].end.qp(),
                ),
        decreases arrangement@.len() - index,
    {
        let left_label = match labels[face_of[2 * index]] {
            Some(value) => value,
            None => return None,
        };
        let right_label = match labels[face_of[2 * index + 1]] {
            Some(value) => value,
            None => return None,
        };
        let left = operation_from_windings(left_label, clip_type, fill_rule);
        let right = operation_from_windings(right_label, clip_type, fill_rule);
        proof {
            assert(arrangement@[index as int].start.wf());
        }
        let edge = &arrangement[index];
        let ghost before = directed@;
        proof {
            assert(face_kept(labels@[face_of@[2 * index as int] as int], clip_type, fill_rule) == left);
            assert(face_kept(labels@[face_of@[2 * index as int + 1] as int], clip_type, fill_rule) == right);
        }
        if left != right {
            if left {
                directed.push(DirectedEdge { start: edge.start.copy(), end: edge.end.copy() });
            } else {
                directed.push(DirectedEdge { start: edge.end.copy(), end: edge.start.copy() });
            }
            proof {
                let e = arrangement@[index as int];
                assert(along_atomic(atomic_edges@, e.start.qp(), e.end.qp()));
                let i = choose|i: int|
                    0 <= i < atomic_edges@.len() && ((#[trigger] atomic_edges@[i]).start.qp() == e.start.qp()
                        && atomic_edges@[i].end.qp() == e.end.qp() || atomic_edges@[i].start.qp() == e.end.qp()
                        && atomic_edges@[i].end.qp() == e.start.qp());
                assert(along_atomic(
                    atomic_edges@,
                    directed@[before.len() as int].start.qp(),
                    directed@[before.len() as int].end.qp(),
                ));
                assert forall|k: int| 0 <= k < directed@.len() implies along_atomic(
                    atomic_edges@,
                    (#[trigger] directed@[k]).start.qp(),
                    directed@[k].end.qp(),
                ) by {
                    if k < before.len() {
                        assert(directed@[k] == before[k]);
                    }
                }
                assert(directed_qps(directed@) =~= directed_qps(before).push(
                    (directed@[before.len() as int].start.qp(), directed@[before.len() as int].end.qp()),
                ));
            }
        }
        proof {
            assert forall|k: int| 0 <= k < index + 1 implies (#[trigger] labels@[face_of@[2 * k] as int]) is Some by {
            }
        }
        index += 1;
    }
    proof {
        assert(labels_consistent(arrangement@, face_of@, labels@));
        assert(labelled_boundary(atomic_edges@, directed@, arrangement@, face_of@, labels@, clip_type, fill_rule));
        let ghost returned: Option<Vec<DirectedEdge>> = Some(directed);
        assert(returned->Some_0@ == directed@);
        assert(exists|a: Seq<ArrangementEdge>, f: Seq<usize>, l: Seq<Option<WindingPair>>|
            #[trigger] labelled_boundary(atomic_edges@, returned->Some_0@, a, f, l, clip_type, fill_rule));
    }
    Some(directed)
}

} // verus!
