//! Tracing result rings from directed boundary edges, and the exact Boolean
//! driver over rational paths.

use vstd::prelude::*;

use crate::arrangement::{
    Edge, canonicalize_ring, edge_of_path, path_order, point_order, starts_at_smallest, exact_area2, is_rotation, permutes, q_unit, rationals_wf, same_path,
    proper_step, sort_paths, split_edge_pair, unit_endpoints,
};
use crate::error::Error;
use crate::exact::{ExactPoint, edge_count, lemma_qp_same_transitive, paths_wf, points_wf, qp_same};
use crate::faces::{along_atomic, boundary_by_rule, select_atomic_boundary, split_source_edges, vec_of};
use crate::geometry::{Point64, normalize_path64, normalize_spec};
use crate::overlay::{
    DirectedEdge, compare_angle, directed_wf, edges_wf, identity_order, parameter_lists_wf, shortcut_applies,
    shortcut_outcome,
    short_circuit,
};
use crate::rational::Rational;
use crate::request::{ClipType, FillRule, views};
use crate::sorting::{no_order, sort_indices_by};
use crate::ring_area::{has_area, lemma_rotation_area, lemma_same_points_area};
use crate::vertex_origin::{
    atomic_endpoint, lemma_shortcut_on_inputs, lemma_traced_rings_on_inputs, params_unit, rings_on_inputs,
};
use crate::PathKind;

verus! {

/// Edge `order[q]` starts where the first edge of fan `g` starts.
spec fn fan_member(edges: Seq<DirectedEdge>, order: Seq<usize>, fan_start: Seq<usize>, g: int, q: int) -> bool {
    qp_same(edges[order[q] as int].start.qp(), edges[order[fan_start[g] as int] as int].start.qp())
}

/// Every edge of every fan starts where its fan's first edge starts.
spec fn fans_ok(edges: Seq<DirectedEdge>, order: Seq<usize>, fan_start: Seq<usize>, fan_len: Seq<usize>) -> bool {
    forall|g: int, q: int|
        0 <= g < fan_start.len() && fan_start[g] <= q < fan_start[g] + fan_len[g] ==> #[trigger] fan_member(
            edges,
            order,
            fan_start,
            g,
            q,
        )
}

/// Whether the ring's edge from point `m` to the next point is, up to equal
/// points, one of the directed edges.
pub open spec fn ring_edge_listed(ring: Seq<ExactPoint>, edges: Seq<DirectedEdge>, m: int) -> bool {
    exists|k: int|
        0 <= k < edges.len() && qp_same(ring[m].qp(), (#[trigger] edges[k]).start.qp()) && qp_same(
            ring[(m + 1) % (ring.len() as int)].qp(),
            edges[k].end.qp(),
        )
}

/// Whether every edge of the ring is one of the directed edges.
pub open spec fn ring_from_edges(ring: Seq<ExactPoint>, edges: Seq<DirectedEdge>) -> bool {
    forall|m: int| 0 <= m < ring.len() ==> #[trigger] ring_edge_listed(ring, edges, m)
}

/// `x % n` for `0 <= x < 2n`.
proof fn lemma_mod_below_twice(x: int, n: int)
    requires
        0 < n,
        0 <= x < 2 * n,
    ensures
        x % n == (if x < n { x } else { x - n }),
{
    if x < n {
        vstd::arithmetic::div_mod::lemma_small_mod(x as nat, n as nat);
    } else {
        vstd::arithmetic::div_mod::lemma_small_mod((x - n) as nat, n as nat);
        vstd::arithmetic::div_mod::lemma_mod_add_multiples_vanish(x - n, n);
    }
}

/// A ring whose points are those of a ring made from the edges is made from
/// the edges.
proof fn lemma_same_ring_from_edges(a: Seq<ExactPoint>, b: Seq<ExactPoint>, edges: Seq<DirectedEdge>)
    requires
        same_path(a, b),
        ring_from_edges(b, edges),
    ensures
        ring_from_edges(a, edges),
{
    assert forall|m: int| 0 <= m < a.len() implies #[trigger] ring_edge_listed(a, edges, m) by {
        assert(ring_edge_listed(b, edges, m));
        let k = choose|k: int|
            0 <= k < edges.len() && qp_same(b[m].qp(), (#[trigger] edges[k]).start.qp()) && qp_same(
                b[(m + 1) % (b.len() as int)].qp(),
                edges[k].end.qp(),
            );
        lemma_mod_below_twice(m + 1, a.len() as int);
        assert(qp_same(a[(m + 1) % (a.len() as int)].qp(), edges[k].end.qp()));
    }
}

/// A rotation of a ring made from the edges is made from the edges.
proof fn lemma_rotated_ring_from_edges(
    rotated: Seq<ExactPoint>,
    ring: Seq<ExactPoint>,
    start: int,
    edges: Seq<DirectedEdge>,
)
    requires
        is_rotation(rotated, ring, start),
        ring_from_edges(ring, edges),
    ensures
        ring_from_edges(rotated, edges),
{
    let n = ring.len() as int;
    assert forall|m: int| 0 <= m < rotated.len() implies #[trigger] ring_edge_listed(rotated, edges, m) by {
        let i = (start + m) % n;
        lemma_mod_below_twice(start + m, n);
        assert(ring_edge_listed(ring, edges, i));
        let k = choose|k: int|
            0 <= k < edges.len() && qp_same(ring[i].qp(), (#[trigger] edges[k]).start.qp()) && qp_same(
                ring[(i + 1) % n].qp(),
                edges[k].end.qp(),
            );
        lemma_mod_below_twice(m + 1, n);
        lemma_mod_below_twice(i + 1, n);
        let following = (m + 1) % n;
        lemma_mod_below_twice(start + following, n);
        assert((start + following) % n == (i + 1) % n);
        assert(rotated[following].qp() == ring[(i + 1) % n].qp());
    }
}

/// Links the directed boundary edges into rings: at each vertex an edge
/// continues with the outgoing edge that turns most sharply clockwise from
/// its reverse. Rings with fewer than three points or zero area are dropped;
/// the others are rotated to start at their smallest point and sorted.
/// Fails with `TopologyFailure` when the edges do not close into rings.
#[verifier::spinoff_prover]
pub fn stitch_directed_edges(edges: &Vec<DirectedEdge>) -> (result: Result<Vec<Vec<ExactPoint>>, Error>)
    requires
        directed_wf(edges@),
    ensures
        result matches Ok(rings) ==> paths_wf(rings@) && forall|i: int|
            0 <= i < rings@.len() ==> (#[trigger] rings@[i])@.len() >= 3,
        result matches Ok(rings) ==> forall|i: int|
            0 <= i < rings@.len() ==> ring_from_edges(#[trigger] rings@[i]@, edges@),
        result matches Ok(rings) ==> forall|i: int| 0 <= i < rings@.len() ==> starts_at_smallest(#[trigger] rings@[i]@),
        result matches Ok(rings) ==> forall|i: int| 0 <= i < rings@.len() ==> has_area(#[trigger] rings@[i]@),
        result matches Ok(rings) ==> forall|k: int|
            0 < k < rings@.len() ==> path_order(#[trigger] rings@[k - 1]@, rings@[k]@, 0) <= 0,
        result is Err ==> result == Err::<Vec<Vec<ExactPoint>>, Error>(Error::TopologyFailure),
{
    let count = edges.len();
    if count == 0 {
        return Ok(Vec::new());
    }
    if count == usize::MAX {
        return Err(Error::TopologyFailure);
    }
    let mut order = identity_order(count);
    let before = |i: usize, j: usize| -> (r: bool)
        requires
            i < edges@.len(),
            j < edges@.len(),
            directed_wf(edges@),
        {
            let first = edges[i].start.compare(&edges[j].start);
            if first != 0 {
                first < 0
            } else {
                compare_angle(&edges[i].end.sub(&edges[i].start), &edges[j].end.sub(&edges[j].start)) < 0
            }
        };
    sort_indices_by(&mut order, count, &before, Ghost(no_order()));
    // Fans of outgoing edges around each distinct start point.
    let mut fan_start: Vec<usize> = Vec::new();
    let mut fan_len: Vec<usize> = Vec::new();
    let mut position: usize = 0;
    while position < count
        invariant
            count == edges@.len(),
            directed_wf(edges@),
            order@.len() == count,
            forall|k: int| 0 <= k < order@.len() ==> #[trigger] order@[k] < count,
            position <= count,
            fan_start@.len() == fan_len@.len(),
            forall|g: int| 0 <= g < fan_start@.len() ==> #[trigger] fan_start@[g] + fan_len@[g] <= count && fan_len@[g] > 0,
            fans_ok(edges@, order@, fan_start@, fan_len@),
        decreases count - position,
    {
        let first = order[position];
        proof {
            assert(edges@[first as int].start.wf());
        }
        let mut end = position + 1;
        while end < count
            invariant
                count == edges@.len(),
                directed_wf(edges@),
                order@.len() == count,
                forall|k: int| 0 <= k < order@.len() ==> #[trigger] order@[k] < count,
                first < count,
                first == order@[position as int],
                position < end <= count,
                forall|q: int| position <= q < end ==> qp_same(
                    #[trigger] edges@[order@[q] as int].start.qp(),
                    edges@[first as int].start.qp(),
                ),
            decreases count - end,
        {
            proof {
                assert(edges@[order@[end as int] as int].start.wf());
            }
            if !edges[order[end]].start.equals(&edges[first].start) {
                break;
            }
            end += 1;
        }
        let ghost old_start = fan_start@;
        let ghost old_len = fan_len@;
        fan_start.push(position);
        fan_len.push(end - position);
        proof {
            assert forall|g: int| 0 <= g < fan_start@.len() implies #[trigger] fan_start@[g] + fan_len@[g] <= count
                && fan_len@[g] > 0 by {
                if g < old_start.len() {
                    assert(fan_start@[g] == old_start[g] && fan_len@[g] == old_len[g]);
                }
            }
            assert forall|g: int, q: int|
                0 <= g < fan_start@.len() && fan_start@[g] <= q < fan_start@[g] + fan_len@[g] implies #[trigger] fan_member(
                edges@,
                order@,
                fan_start@,
                g,
                q,
            ) by {
                if g < old_start.len() {
                    assert(fan_start@[g] == old_start[g] && fan_len@[g] == old_len[g]);
                    assert(fan_member(edges@, order@, old_start, g, q));
                } else {
                    assert(fan_start@[g] == position);
                    assert(qp_same(edges@[order@[q] as int].start.qp(), edges@[first as int].start.qp()));
                }
            }
        }
        position = end;
    }
    // The successor of each edge.
    let mut next: Vec<usize> = vec_of(count, 0);
    let mut index: usize = 0;
    while index < count
        invariant
            count == edges@.len(),
            directed_wf(edges@),
            order@.len() == count,
            forall|k: int| 0 <= k < order@.len() ==> #[trigger] order@[k] < count,
            fan_start@.len() == fan_len@.len(),
            forall|g: int| 0 <= g < fan_start@.len() ==> #[trigger] fan_start@[g] + fan_len@[g] <= count && fan_len@[g] > 0,
            next@.len() == count,
            forall|k: int| 0 <= k < next@.len() ==> #[trigger] next@[k] < count,
            index <= count,
            fans_ok(edges@, order@, fan_start@, fan_len@),
            forall|k: int|
                0 <= k < index ==> qp_same(edges@[#[trigger] next@[k] as int].start.qp(), edges@[k].end.qp()),
        decreases count - index,
    {
        proof {
            assert(edges@[index as int].start.wf());
        }
        let edge = &edges[index];
        let group = match find_fan(edges, &order, &fan_start, &fan_len, &edge.end) {
            Some(group) => group,
            None => return Err(Error::TopologyFailure),
        };
        let start = fan_start[group];
        let len = fan_len[group];
        let reverse_direction = edge.start.sub(&edge.end);
        let mut insertion: usize = 0;
        while insertion < len
            invariant
                count == edges@.len(),
                directed_wf(edges@),
                order@.len() == count,
                forall|k: int| 0 <= k < order@.len() ==> #[trigger] order@[k] < count,
                start + len <= count,
                reverse_direction.wf(),
                insertion <= len,
            decreases len - insertion,
        {
            let candidate = order[start + insertion];
            proof {
                assert(edges@[candidate as int].start.wf());
            }
            let direction = edges[candidate].end.sub(&edges[candidate].start);
            if compare_angle(&direction, &reverse_direction) >= 0 {
                break;
            }
            insertion += 1;
        }
        let chosen = if insertion == 0 {
            len - 1
        } else {
            insertion - 1
        };
        let ghost previous_next = next@;
        next.set(index, order[start + chosen]);
        proof {
            let g = group as int;
            let q = (start + chosen) as int;
            assert(fan_member(edges@, order@, fan_start@, g, q));
            let representative = order@[fan_start@[g] as int] as int;
            assert(edges@[order@[q] as int].start.wf() && edges@[representative].start.wf());
            lemma_qp_same_transitive(
                edges@[order@[q] as int].start.qp(),
                edges@[representative].start.qp(),
                edges@[index as int].end.qp(),
            );
            assert forall|k: int| 0 <= k < index + 1 implies qp_same(
                edges@[#[trigger] next@[k] as int].start.qp(),
                edges@[k].end.qp(),
            ) by {
                if k < index {
                    assert(next@[k] == previous_next[k]);
                }
            }
        }
        index += 1;
    }
    // Walk the successor links into rings.
    let mut visited: Vec<bool> = Vec::new();
    let mut k: usize = 0;
    while k < count
        invariant
            k <= count,
            visited@.len() == k,
        decreases count - k,
    {
        visited.push(false);
        k += 1;
    }
    let mut rings: Vec<Vec<ExactPoint>> = Vec::new();
    let mut start: usize = 0;
    while start < count
        invariant
            count == edges@.len(),
            directed_wf(edges@),
            next@.len() == count,
            forall|k: int| 0 <= k < next@.len() ==> #[trigger] next@[k] < count,
            visited@.len() == count,
            count < usize::MAX,
            start <= count,
            paths_wf(rings@),
            forall|i: int| 0 <= i < rings@.len() ==> (#[trigger] rings@[i])@.len() >= 3,
            forall|k: int|
                0 <= k < count ==> qp_same(edges@[#[trigger] next@[k] as int].start.qp(), edges@[k].end.qp()),
            forall|i: int| 0 <= i < rings@.len() ==> ring_from_edges(#[trigger] rings@[i]@, edges@),
            forall|i: int| 0 <= i < rings@.len() ==> starts_at_smallest(#[trigger] rings@[i]@),
            forall|i: int| 0 <= i < rings@.len() ==> has_area(#[trigger] rings@[i]@),
        decreases count - start,
    {
        if !visited[start] {
            let mut ring: Vec<ExactPoint> = Vec::new();
            let mut current = start;
            let mut closed = false;
            let mut steps: usize = 0;
            let ghost mut cycle: Seq<int> = Seq::empty();
            while steps <= count
                invariant_except_break
                    steps <= count + 1,
                    !closed,
                invariant
                    count == edges@.len(),
                    directed_wf(edges@),
                    next@.len() == count,
                    forall|k: int| 0 <= k < next@.len() ==> #[trigger] next@[k] < count,
                    visited@.len() == count,
                    count < usize::MAX,
                    start < count,
                    current < count,
                    points_wf(ring@),
                    forall|k: int|
                        0 <= k < count ==> qp_same(edges@[#[trigger] next@[k] as int].start.qp(), edges@[k].end.qp()),
                    ring@.len() == cycle.len(),
                    forall|j: int|
                        0 <= j < cycle.len() ==> 0 <= #[trigger] cycle[j] < count && ring@[j].qp()
                            == edges@[cycle[j]].start.qp(),
                    forall|j: int| 0 <= j < cycle.len() - 1 ==> cycle[j + 1] == next@[#[trigger] cycle[j]],
                    cycle.len() > 0 ==> cycle[0] == start && current == next@[cycle[cycle.len() - 1]],
                    cycle.len() == 0 ==> current == start && !visited@[start as int],
                ensures
                    closed ==> cycle.len() > 0 && current == start,
                decreases count + 1 - steps,
            {
                if visited[current] {
                    if current != start {
                        return Err(Error::TopologyFailure);
                    }
                    closed = true;
                    break;
                }
                visited.set(current, true);
                proof {
                    assert(edges@[current as int].start.wf());
                }
                let ghost before_ring = ring@;
                let ghost before_cycle = cycle;
                ring.push(edges[current].start.copy());
                proof {
                    cycle = cycle.push(current as int);
                    assert forall|j: int|
                        0 <= j < cycle.len() implies 0 <= #[trigger] cycle[j] < count && ring@[j].qp()
                        == edges@[cycle[j]].start.qp() by {
                        if j < before_cycle.len() {
                            assert(ring@[j] == before_ring[j]);
                        }
                    }
                    assert forall|j: int| 0 <= j < cycle.len() - 1 implies cycle[j + 1] == next@[
                        #[trigger] cycle[j]
                    ] by {
                        if j < before_cycle.len() - 1 {
                            assert(cycle[j] == before_cycle[j] && cycle[j + 1] == before_cycle[j + 1]);
                        }
                    }
                }
                current = next[current];
                steps += 1;
            }
            if !closed {
                return Err(Error::TopologyFailure);
            }
            proof {
                let n = ring@.len() as int;
                assert forall|m: int| 0 <= m < n implies #[trigger] ring_edge_listed(ring@, edges@, m) by {
                    let k = cycle[m];
                    lemma_mod_below_twice(m + 1, n);
                    if m + 1 < n {
                        assert(cycle[m + 1] == next@[cycle[m]]);
                    } else {
                        assert(ring@[0].qp() == edges@[next@[k] as int].start.qp());
                    }
                    assert(qp_same(ring@[m].qp(), edges@[k].start.qp()));
                    assert(qp_same(ring@[(m + 1) % n].qp(), edges@[k].end.qp()));
                }
                assert(ring_from_edges(ring@, edges@));
            }
            if ring.len() >= 3 && !exact_area2(&ring).is_zero() {
                let ghost traced = ring@;
                let ghost before_rings = rings@;
                let rotated = canonicalize_ring(ring);
                proof {
                    let first = choose|first: int| #[trigger] is_rotation(rotated@, traced, first);
                    lemma_rotated_ring_from_edges(rotated@, traced, first, edges@);
                    lemma_rotation_area(rotated@, traced, first);
                }
                rings.push(rotated);
                proof {
                    assert forall|i: int| 0 <= i < rings@.len() implies ring_from_edges(#[trigger] rings@[i]@, edges@)
                        && starts_at_smallest(rings@[i]@) && has_area(rings@[i]@) by {
                        if i < before_rings.len() {
                            assert(rings@[i] == before_rings[i]);
                        }
                    }
                }
            }
        }
        start += 1;
    }
    let ghost unsorted = rings@;
    let sorted = sort_paths(rings, 3);
    proof {
        let perm = choose|perm: Seq<usize>| #[trigger] permutes(sorted@, unsorted, perm);
        assert forall|i: int| 0 <= i < sorted@.len() implies ring_from_edges(#[trigger] sorted@[i]@, edges@) by {
            assert(same_path(sorted@[i]@, unsorted[perm[i] as int]@));
            assert(ring_from_edges(unsorted[perm[i] as int]@, edges@));
            lemma_same_ring_from_edges(sorted@[i]@, unsorted[perm[i] as int]@, edges@);
        }
        assert forall|i: int| 0 <= i < sorted@.len() implies has_area(#[trigger] sorted@[i]@) by {
            let original = unsorted[perm[i] as int]@;
            assert(same_path(sorted@[i]@, original));
            assert(points_wf(original));
            lemma_same_points_area(sorted@[i]@, original);
        }
        assert forall|i: int| 0 <= i < sorted@.len() implies starts_at_smallest(#[trigger] sorted@[i]@) by {
            let original = unsorted[perm[i] as int]@;
            assert(same_path(sorted@[i]@, original));
            assert(starts_at_smallest(original));
            assert forall|k: int| 0 <= k < sorted@[i]@.len() implies point_order(sorted@[i]@[0], #[trigger] sorted@[i]@[k])
                <= 0 by {
                assert(sorted@[i]@[0].qp() == original[0].qp());
                assert(sorted@[i]@[k].qp() == original[k].qp());
                assert(point_order(original[0], original[k]) <= 0);
            }
        }
    }
    Ok(sorted)
}

fn find_fan(
    edges: &Vec<DirectedEdge>,
    order: &Vec<usize>,
    fan_start: &Vec<usize>,
    fan_len: &Vec<usize>,
    point: &ExactPoint,
) -> (result: Option<usize>)
    requires
        directed_wf(edges@),
        point.wf(),
        order@.len() == edges@.len(),
        forall|k: int| 0 <= k < order@.len() ==> #[trigger] order@[k] < edges@.len(),
        fan_start@.len() == fan_len@.len(),
        forall|g: int| 0 <= g < fan_start@.len() ==> #[trigger] fan_start@[g] + fan_len@[g] <= edges@.len() && fan_len@[g] > 0,
    ensures
        result matches Some(group) ==> group < fan_start@.len() && qp_same(
            edges@[order@[fan_start@[group as int] as int] as int].start.qp(),
            point.qp(),
        ),
        result matches Some(group) ==> forall|g: int| 0 <= g < group ==> !qp_same(
            edges@[order@[#[trigger] fan_start@[g] as int] as int].start.qp(),
            point.qp(),
        ),
        result is None ==> forall|g: int| 0 <= g < fan_start@.len() ==> !qp_same(
            edges@[order@[#[trigger] fan_start@[g] as int] as int].start.qp(),
            point.qp(),
        ),
{
    let mut group: usize = 0;
    while group < fan_start.len()
        invariant
            directed_wf(edges@),
            point.wf(),
            order@.len() == edges@.len(),
            forall|k: int| 0 <= k < order@.len() ==> #[trigger] order@[k] < edges@.len(),
            fan_start@.len() == fan_len@.len(),
            forall|g: int| 0 <= g < fan_start@.len() ==> #[trigger] fan_start@[g] + fan_len@[g] <= edges@.len() && fan_len@[g] > 0,
            group <= fan_start@.len(),
            forall|g: int| 0 <= g < group ==> !qp_same(
                edges@[order@[#[trigger] fan_start@[g] as int] as int].start.qp(),
                point.qp(),
            ),
        decreases fan_start@.len() - group,
    {
        let representative = order[fan_start[group]];
        proof {
            assert(edges@[representative as int].start.wf());
        }
        if edges[representative].start.equals(point) {
            return Some(group);
        }
        group += 1;
    }
    None
}

/// The closed input rings that take part in a Boolean operation: each path
/// normalized, kept when at least three points remain.
pub open spec fn kept_rings(paths: Seq<Vec<Point64>>) -> Seq<Seq<Point64>>
    decreases paths.len(),
{
    if paths.len() == 0 {
        Seq::empty()
    } else {
        let prefix = kept_rings(paths.drop_last());
        let normalized = normalize_spec(paths.last()@, PathKind::Closed);
        if normalized.len() >= 3 {
            prefix.push(normalized)
        } else {
            prefix
        }
    }
}

/// The closed rings that take part in a Boolean operation, from the points
/// of the paths: each normalized, kept when at least three points remain.
pub open spec fn kept_views(paths: Seq<Seq<Point64>>) -> Seq<Seq<Point64>>
    decreases paths.len(),
{
    if paths.len() == 0 {
        Seq::empty()
    } else {
        let prefix = kept_views(paths.drop_last());
        let normalized = normalize_spec(paths.last(), PathKind::Closed);
        if normalized.len() >= 3 {
            prefix.push(normalized)
        } else {
            prefix
        }
    }
}

/// The kept rings of paths are the kept rings of their points.
pub proof fn lemma_kept_views(paths: Seq<Vec<Point64>>)
    ensures
        kept_rings(paths) == kept_views(views(paths)),
    decreases paths.len(),
{
    if paths.len() > 0 {
        lemma_kept_views(paths.drop_last());
        assert(views(paths).drop_last() =~= views(paths.drop_last()));
        assert(views(paths).last() == paths.last()@);
    }
}

/// Whether `exact` holds the integer points of `points` exactly.
pub open spec fn exact_of(points: Seq<Point64>, exact: Seq<ExactPoint>) -> bool {
    &&& exact.len() == points.len()
    &&& forall|i: int| 0 <= i < points.len() ==> (#[trigger] exact[i]).qp() == ((points[i].x as int, 1int), (
    points[i].y as int, 1int))
}

/// The exact closed paths of the integer input: each path normalized, kept
/// when at least three points remain, with integer coordinates.
pub fn exact_paths64(paths: &[Vec<Point64>]) -> (exact: Vec<Vec<ExactPoint>>)
    ensures
        paths_wf(exact@),
        forall|i: int| 0 <= i < exact@.len() ==> (#[trigger] exact@[i])@.len() >= 3,
        exact@.len() == kept_rings(paths@).len(),
        forall|i: int| 0 <= i < exact@.len() ==> exact_of(kept_rings(paths@)[i], #[trigger] exact@[i]@),
{
    let mut exact: Vec<Vec<ExactPoint>> = Vec::new();
    let mut index: usize = 0;
    while index < paths.len()
        invariant
            index <= paths@.len(),
            paths_wf(exact@),
            forall|i: int| 0 <= i < exact@.len() ==> (#[trigger] exact@[i])@.len() >= 3,
            exact@.len() == kept_rings(paths@.subrange(0, index as int)).len(),
            forall|i: int| 0 <= i < exact@.len() ==> exact_of(kept_rings(paths@.subrange(0, index as int))[i], #[trigger] exact@[i]@),
        decreases paths@.len() - index,
    {
        proof {
            assert(paths@.subrange(0, index + 1).drop_last() =~= paths@.subrange(0, index as int));
            assert(paths@.subrange(0, index + 1).last() == paths@[index as int]);
        }
        let normalized = normalize_path64(paths[index].as_slice(), PathKind::Closed);
        let ghost before = exact@;
        if normalized.len() >= 3 {
            let converted = convert_path64(&normalized);
            exact.push(converted);
            proof {
                let kept = kept_rings(paths@.subrange(0, index + 1));
                assert forall|i: int| 0 <= i < exact@.len() implies exact_of(kept[i], #[trigger] exact@[i]@) by {
                    if i < before.len() {
                        assert(exact@[i] == before[i]);
                    }
                }
            }
        }
        index += 1;
    }
    proof {
        assert(paths@.subrange(0, paths@.len() as int) =~= paths@);
    }
    exact
}

/// The exact points of an integer path.
pub fn convert_path64(path: &Vec<Point64>) -> (converted: Vec<ExactPoint>)
    ensures
        points_wf(converted@),
        converted@.len() == path@.len(),
        forall|i: int| 0 <= i < path@.len() ==> (#[trigger] converted@[i]).qp() == ((path@[i].x as int, 1int), (path@[i].y as int, 1int)),
{
    let mut converted: Vec<ExactPoint> = Vec::new();
    let mut index: usize = 0;
    while index < path.len()
        invariant
            index <= path@.len(),
            converted@.len() == index,
            points_wf(converted@),
            forall|i: int| 0 <= i < index ==> (#[trigger] converted@[i]).qp() == ((path@[i].x as int, 1int), (path@[i].y as int, 1int)),
        decreases path@.len() - index,
    {
        converted.push(ExactPoint::from_point64(path[index]));
        index += 1;
    }
    converted
}

/// Whether the paths together have at most `i128::MAX` edges.
pub fn edge_total_fits(paths: &[Vec<ExactPoint>]) -> (result: bool)
    ensures
        result == (edge_count(paths@, paths@.len() as nat) <= u64::MAX),
        result ==> edge_count(paths@, paths@.len() as nat) <= i128::MAX,
{
    let mut total: u64 = 0;
    let mut index: usize = 0;
    while index < paths.len()
        invariant
            index <= paths@.len(),
            total == edge_count(paths@, index as nat),
        decreases paths@.len() - index,
    {
        let length = paths[index].len() as u64;
        total = match total.checked_add(length) {
            Some(value) => value,
            None => {
                proof {
                    lemma_edge_count_monotone(paths@, (index + 1) as nat, paths@.len() as nat);
                }
                return false;
            },
        };
        index += 1;
    }
    true
}

proof fn lemma_edge_count_monotone(paths: Seq<Vec<ExactPoint>>, m: nat, n: nat)
    requires
        m <= n <= paths.len(),
    ensures
        edge_count(paths, m) <= edge_count(paths, n),
    decreases n - m,
{
    if m < n {
        lemma_edge_count_monotone(paths, m, (n - 1) as nat);
    }
}

/// Whether a rational is an integer in the `i64` range.
pub open spec fn integral64(value: Rational) -> bool {
    value.num() % value.den() == 0 && i64::MIN <= value.num() / value.den() <= i64::MAX
}

/// Whether every coordinate of every path is an integer in the `i64` range.
pub open spec fn paths_integral64(paths: Seq<Vec<ExactPoint>>) -> bool {
    forall|i: int, j: int|
        0 <= i < paths.len() && 0 <= j < paths[i]@.len() ==> integral64((#[trigger] paths[i]@[j]).x) && integral64(
            paths[i]@[j].y,
        )
}

/// Finishes an exact Boolean result: an error passes through, rings are
/// converted to integer points.
pub fn finish_exact_boolean(result: Result<Vec<Vec<ExactPoint>>, Error>) -> (finished: Result<Vec<Vec<Point64>>, Error>)
    requires
        result matches Ok(rings) ==> paths_wf(rings@),
    ensures
        result matches Err(error) ==> finished == Err::<Vec<Vec<Point64>>, Error>(error),
        result matches Ok(rings) ==> (finished is Ok <==> paths_integral64(rings@)),
        result matches Ok(rings) ==> (finished is Err ==> finished == Err::<Vec<Vec<Point64>>, Error>(
            Error::NonIntegralResult,
        )),
        result matches Ok(rings) ==> (finished matches Ok(converted) ==> converted@.len() == rings@.len() && forall|i: int|
            0 <= i < rings@.len() ==> (#[trigger] converted@[i])@.len() == rings@[i]@.len() && forall|j: int|
                0 <= j < rings@[i]@.len() ==> (#[trigger] converted@[i]@[j]).x * rings@[i]@[j].x.den()
                    == rings@[i]@[j].x.num() && converted@[i]@[j].y * rings@[i]@[j].y.den() == rings@[i]@[j].y.num()),
{
    match result {
        Ok(rings) => exact_paths_to_i64(&rings),
        Err(error) => Err(error),
    }
}

/// Converts exact paths back to integer paths without rounding: each
/// coordinate comes back as the same number, and `NonIntegralResult` is
/// returned exactly when some coordinate is not an `i64` integer.
pub fn exact_paths_to_i64(paths: &Vec<Vec<ExactPoint>>) -> (result: Result<Vec<Vec<Point64>>, Error>)
    requires
        paths_wf(paths@),
    ensures
        result is Ok <==> paths_integral64(paths@),
        result is Err ==> result == Err::<Vec<Vec<Point64>>, Error>(Error::NonIntegralResult),
        result matches Ok(converted) ==> converted@.len() == paths@.len() && forall|i: int|
            0 <= i < paths@.len() ==> (#[trigger] converted@[i])@.len() == paths@[i]@.len()
                && forall|j: int| 0 <= j < paths@[i]@.len() ==> (#[trigger] converted@[i]@[j]).x * paths@[i]@[j].x.den()
                    == paths@[i]@[j].x.num() && converted@[i]@[j].y * paths@[i]@[j].y.den() == paths@[i]@[j].y.num(),
{
    let mut converted: Vec<Vec<Point64>> = Vec::new();
    let mut index: usize = 0;
    while index < paths.len()
        invariant
            paths_wf(paths@),
            index <= paths@.len(),
            converted@.len() == index,
            forall|i: int, j: int|
                0 <= i < index && 0 <= j < paths@[i]@.len() ==> integral64((#[trigger] paths@[i]@[j]).x) && integral64(
                    paths@[i]@[j].y,
                ),
            forall|i: int|
                0 <= i < index ==> (#[trigger] converted@[i])@.len() == paths@[i]@.len()
                    && forall|j: int| 0 <= j < paths@[i]@.len() ==> (#[trigger] converted@[i]@[j]).x * paths@[i]@[j].x.den()
                        == paths@[i]@[j].x.num() && converted@[i]@[j].y * paths@[i]@[j].y.den() == paths@[i]@[j].y.num(),
        decreases paths@.len() - index,
    {
        let path = &paths[index];
        proof {
            assert(points_wf(paths@[index as int]@));
        }
        let mut points: Vec<Point64> = Vec::new();
        let mut j: usize = 0;
        while j < path.len()
            invariant
                points_wf(path@),
                path == paths@[index as int],
                index < paths@.len(),
                forall|m: int| 0 <= m < j ==> integral64((#[trigger] path@[m]).x) && integral64(path@[m].y),
                j <= path@.len(),
                points@.len() == j,
                forall|m: int| 0 <= m < j ==> (#[trigger] points@[m]).x * path@[m].x.den() == path@[m].x.num()
                    && points@[m].y * path@[m].y.den() == path@[m].y.num(),
            decreases path@.len() - j,
        {
            proof {
                assert(path@[j as int].wf());
            }
            let x = match path[j].x.to_i64() {
                Some(value) => value,
                None => {
                    assert(!integral64(paths@[index as int]@[j as int].x));
                    return Err(Error::NonIntegralResult);
                },
            };
            let y = match path[j].y.to_i64() {
                Some(value) => value,
                None => {
                    assert(!integral64(paths@[index as int]@[j as int].y));
                    return Err(Error::NonIntegralResult);
                },
            };
            points.push(Point64 { x, y });
            j += 1;
        }
        converted.push(points);
        index += 1;
    }
    Ok(converted)
}

/// The rings as the exact kernel traces them: every ring runs along
/// directed edges that are the boundary of the result under the operation
/// and fill rule, along atomic edges.
pub open spec fn kernel_traced(
    rings: Seq<Vec<ExactPoint>>,
    subjects: Seq<Vec<ExactPoint>>,
    clips: Seq<Vec<ExactPoint>>,
    clip_type: ClipType,
    fill_rule: FillRule,
) -> bool {
    exists|atomic: Seq<crate::overlay::AtomicEdge>, directed: Seq<DirectedEdge>, epsilon: crate::rational::Q|
        #[trigger] boundary_by_rule(atomic, directed, subjects, clips, clip_type, fill_rule, epsilon) && forall|i: int|
            0 <= i < rings.len() ==> ring_from_edges(#[trigger] rings[i]@, directed)
}

/// The exact Boolean operation on rational paths: short-circuit cases first,
/// otherwise every pair of edges with overlapping x ranges is noded, the
/// faces are labelled (falling back to sampling each atomic edge), and the
/// boundary is traced into rings.
pub fn run_boolean(
    subjects: &[Vec<ExactPoint>],
    clips: &[Vec<ExactPoint>],
    clip_type: ClipType,
    fill_rule: FillRule,
) -> (result: Result<Vec<Vec<ExactPoint>>, Error>)
    requires
        paths_wf(subjects@),
        paths_wf(clips@),
    ensures
        result matches Ok(rings) ==> paths_wf(rings@),
        result is Err ==> result == Err::<Vec<Vec<ExactPoint>>, Error>(Error::TopologyFailure)
            || result == Err::<Vec<Vec<ExactPoint>>, Error>(Error::ArithmeticOverflow),
        (subjects@.len() == 0 && clips@.len() == 0) ==> (result matches Ok(rings) && rings@.len() == 0),
        ((fill_rule == FillRule::EvenOdd || fill_rule == FillRule::NonZero) && (subjects@.len() == 0
            || clips@.len() == 0) && clip_type == ClipType::Intersection) ==> (result matches Ok(rings)
            && rings@.len() == 0),
        ((fill_rule == FillRule::EvenOdd || fill_rule == FillRule::NonZero) && subjects@.len() == 0 && clip_type
            == ClipType::Difference) ==> (result matches Ok(rings) && rings@.len() == 0),
        result matches Ok(rings) ==> rings_on_inputs(rings@, subjects@, clips@),
        shortcut_applies(subjects@, clips@, clip_type, fill_rule) ==> (result matches Ok(rings) && shortcut_outcome(
            subjects@,
            clips@,
            clip_type,
            rings@,
        )),
        result matches Ok(rings) ==> shortcut_applies(subjects@, clips@, clip_type, fill_rule) || kernel_traced(
            rings@,
            subjects@,
            clips@,
            clip_type,
            fill_rule,
        ),
{
    match short_circuit(subjects, clips, clip_type, fill_rule) {
        Some(result) => {
            proof {
                lemma_shortcut_on_inputs(subjects@, clips@, clip_type, result@);
            }
            return Ok(result);
        },
        None => {},
    }
    if !edge_total_fits(subjects) || !edge_total_fits(clips) {
        return Err(Error::ArithmeticOverflow);
    }
    let mut edges: Vec<Edge> = Vec::new();
    let mut edge_subjects: Vec<bool> = Vec::new();
    collect_edges(subjects, true, &mut edges, &mut edge_subjects);
    let ghost subject_edges = edges@;
    collect_edges(clips, false, &mut edges, &mut edge_subjects);
    proof {
        assert forall|e: int| 0 <= e < edges@.len() implies #[trigger] edge_of_paths(subjects@, edges@[e])
            || edge_of_paths(clips@, edges@[e]) by {
            if e < subject_edges.len() {
                assert(edges@[e] == subject_edges[e]);
            }
        }
    }
    let count = edges.len();
    if count == 0 {
        let rings: Vec<Vec<ExactPoint>> = Vec::new();
        proof {
            let atomic = Seq::<crate::overlay::AtomicEdge>::empty();
            let directed = Seq::<DirectedEdge>::empty();
            assert(crate::faces::sampled_boundary(atomic, directed, subjects@, clips@, clip_type, fill_rule, (0int, 1int)));
            assert(boundary_by_rule(atomic, directed, subjects@, clips@, clip_type, fill_rule, (0int, 1int)));
        }
        return Ok(rings);
    }
    if count == usize::MAX {
        return Err(Error::TopologyFailure);
    }
    let mut parameters: Vec<Vec<Rational>> = Vec::new();
    let mut k: usize = 0;
    while k < count
        invariant
            k <= count,
            parameters@.len() == k,
            parameter_lists_wf(parameters@),
            params_unit(parameters@),
        decreases count - k,
    {
        let ghost before = parameters@;
        parameters.push(unit_endpoints());
        proof {
            assert forall|e: int, j: int| 0 <= e < parameters@.len() && 0 <= j < parameters@[e]@.len() implies q_unit(
                (#[trigger] parameters@[e]@[j]).q(),
            ) by {
                if e < before.len() {
                    assert(parameters@[e] == before[e]);
                }
            }
        }
        k += 1;
    }
    let mut order = identity_order(count);
    let before = |i: usize, j: usize| -> (r: bool)
        requires
            i < edges@.len(),
            j < edges@.len(),
            edges_wf(edges@),
        {
            let first = edges[i].min_x.compare(&edges[j].min_x);
            if first != 0 {
                first < 0
            } else {
                edges[i].max_x.lt(&edges[j].max_x)
            }
        };
    sort_indices_by(&mut order, count, &before, Ghost(no_order()));
    let mut active: Vec<usize> = Vec::new();
    let mut position: usize = 0;
    while position < count
        invariant
            count == edges@.len(),
            edges_wf(edges@),
            edge_subjects@.len() == count,
            parameters@.len() == count,
            parameter_lists_wf(parameters@),
            params_unit(parameters@),
            order@.len() == count,
            forall|k: int| 0 <= k < order@.len() ==> #[trigger] order@[k] < count,
            forall|k: int| 0 <= k < active@.len() ==> #[trigger] active@[k] < count,
            position <= count,
        decreases count - position,
    {
        let current = order[position];
        proof {
            assert(edges@[current as int].wf());
        }
        let mut kept: Vec<usize> = Vec::new();
        let mut a: usize = 0;
        while a < active.len()
            invariant
                count == edges@.len(),
                edges_wf(edges@),
                current < count,
                forall|k: int| 0 <= k < active@.len() ==> #[trigger] active@[k] < count,
                forall|k: int| 0 <= k < kept@.len() ==> #[trigger] kept@[k] < count,
                a <= active@.len(),
            decreases active@.len() - a,
        {
            let candidate = active[a];
            proof {
                assert(edges@[candidate as int].wf());
            }
            if edges[current].min_x.le(&edges[candidate].max_x) {
                kept.push(candidate);
            }
            a += 1;
        }
        active = kept;
        let mut p: usize = 0;
        while p < active.len()
            invariant
                count == edges@.len(),
                edges_wf(edges@),
                parameters@.len() == count,
                parameter_lists_wf(parameters@),
                params_unit(parameters@),
                current < count,
                forall|k: int| 0 <= k < active@.len() ==> #[trigger] active@[k] < count,
                p <= active@.len(),
            decreases active@.len() - p,
        {
            let previous = active[p];
            let (first, second) = if previous < current {
                (previous, current)
            } else {
                (current, previous)
            };
            if first != second {
                proof {
                    assert(edges@[first as int].wf());
                    assert(edges@[second as int].wf());
                    assert(rationals_wf(parameters@[first as int]@));
                    assert(rationals_wf(parameters@[second as int]@));
                }
                let ghost lists = parameters@;
                let mut first_params: Vec<Rational> = Vec::new();
                let mut second_params: Vec<Rational> = Vec::new();
                parameters.set_and_swap(first, &mut first_params);
                parameters.set_and_swap(second, &mut second_params);
                let ghost old_first = first_params@;
                let ghost old_second = second_params@;
                proof {
                    assert(old_first == lists[first as int]@);
                    assert(old_second == lists[second as int]@);
                }
                split_edge_pair(&edges[first], &edges[second], &mut first_params, &mut second_params);
                parameters.set_and_swap(first, &mut first_params);
                parameters.set_and_swap(second, &mut second_params);
                proof {
                    assert forall|i: int| 0 <= i < parameters@.len() implies rationals_wf(
                        #[trigger] parameters@[i]@,
                    ) by {}
                    assert forall|e: int, j: int| 0 <= e < parameters@.len() && 0 <= j < parameters@[e]@.len() implies q_unit(
                        (#[trigger] parameters@[e]@[j]).q(),
                    ) by {
                        if e == first as int {
                            if j < old_first.len() {
                                assert(parameters@[e]@[j] == old_first[j]);
                                assert(q_unit(lists[e]@[j].q()));
                            }
                        } else if e == second as int {
                            if j < old_second.len() {
                                assert(parameters@[e]@[j] == old_second[j]);
                                assert(q_unit(lists[e]@[j].q()));
                            }
                        } else {
                            assert(parameters@[e] == lists[e]);
                        }
                    }
                }
            }
            p += 1;
        }
        active.push(current);
        position += 1;
    }
    let atomic = split_source_edges(&edges, &parameters, &edge_subjects);
    let epsilon = Rational::from_i128(1, 0x100_0000_0000_0000_0000_0000_0000_0000);
    let directed = select_atomic_boundary(&atomic, subjects, clips, clip_type, fill_rule, &epsilon);
    proof {
        assert forall|k: int| 0 <= k < directed@.len() implies atomic_endpoint(
            atomic@,
            (#[trigger] directed@[k]).start.qp(),
        ) by {
            assert(along_atomic(atomic@, directed@[k].start.qp(), directed@[k].end.qp()));
        }
    }
    let result = stitch_directed_edges(&directed);
    proof {
        if result is Ok {
            let rings = result->Ok_0;
            lemma_traced_rings_on_inputs(rings@, directed@, atomic@, edges@, parameters@, subjects@, clips@);
            assert(boundary_by_rule(atomic@, directed@, subjects@, clips@, clip_type, fill_rule, epsilon.q()));
        }
    }
    result
}

/// Whether `edge` runs between consecutive points of one of the closed
/// paths.
pub open spec fn edge_of_paths(paths: Seq<Vec<ExactPoint>>, edge: Edge) -> bool {
    exists|p: int, m: int| 0 <= p < paths.len() && 0 <= m < paths[p]@.len() && #[trigger] edge_of_path(paths[p]@, m, edge)
}

/// Some edge from position `from` on runs along step `m` of the path.
pub open spec fn step_collected(edges: Seq<Edge>, from: int, path: Seq<ExactPoint>, m: int) -> bool {
    exists|k: int| from <= k < edges.len() && #[trigger] edge_of_path(path, m, edges[k])
}

/// Every proper step of the first `n` paths has an edge from position `from`
/// on.
pub open spec fn steps_collected(edges: Seq<Edge>, from: int, paths: Seq<Vec<ExactPoint>>, n: int) -> bool {
    forall|p: int, m: int|
        0 <= p < n && 0 <= m < paths[p]@.len() && #[trigger] proper_step(paths[p]@, m) ==> step_collected(
            edges,
            from,
            paths[p]@,
            m,
        )
}

proof fn lemma_step_collected_grows(before: Seq<Edge>, after: Seq<Edge>, from: int, path: Seq<ExactPoint>, m: int)
    requires
        0 <= from,
        before.len() <= after.len(),
        forall|k: int| 0 <= k < before.len() ==> #[trigger] after[k] == before[k],
        step_collected(before, from, path, m),
    ensures
        step_collected(after, from, path, m),
{
    let k = choose|k: int| from <= k < before.len() && #[trigger] edge_of_path(path, m, before[k]);
    assert(after[k] == before[k]);
}

pub proof fn lemma_collected_grows(before: Seq<Edge>, after: Seq<Edge>, from: int, paths: Seq<Vec<ExactPoint>>, n: int)
    requires
        0 <= from,
        before.len() <= after.len(),
        forall|k: int| 0 <= k < before.len() ==> #[trigger] after[k] == before[k],
        steps_collected(before, from, paths, n),
    ensures
        steps_collected(after, from, paths, n),
{
    assert forall|p: int, m: int|
        0 <= p < n && 0 <= m < paths[p]@.len() && #[trigger] proper_step(paths[p]@, m) implies step_collected(
        after,
        from,
        paths[p]@,
        m,
    ) by {
        lemma_step_collected_grows(before, after, from, paths[p]@, m);
    }
}

#[verifier::spinoff_prover]
fn collect_edges(paths: &[Vec<ExactPoint>], subject: bool, edges: &mut Vec<Edge>, edge_subjects: &mut Vec<bool>)
    requires
        paths_wf(paths@),
        edges_wf(old(edges)@),
        old(edge_subjects)@.len() == old(edges)@.len(),
    ensures
        edges_wf(final(edges)@),
        final(edge_subjects)@.len() == final(edges)@.len(),
        paths@.len() == 0 ==> final(edges)@ == old(edges)@,
        final(edges)@.len() >= old(edges)@.len(),
        forall|k: int| 0 <= k < old(edges)@.len() ==> #[trigger] final(edges)@[k] == old(edges)@[k],
        forall|k: int|
            old(edges)@.len() <= k < final(edges)@.len() ==> edge_of_paths(paths@, #[trigger] final(edges)@[k]),
        forall|k: int| 0 <= k < old(edges)@.len() ==> #[trigger] final(edge_subjects)@[k] == old(edge_subjects)@[k],
        forall|k: int| old(edges)@.len() <= k < final(edges)@.len() ==> #[trigger] final(edge_subjects)@[k] == subject,
        steps_collected(final(edges)@, old(edges)@.len() as int, paths@, paths@.len() as int),
{
    let ghost initial = edges@;
    let ghost initial_subjects = edge_subjects@;
    let mut index: usize = 0;
    while index < paths.len()
        invariant
            paths_wf(paths@),
            edges_wf(edges@),
            edge_subjects@.len() == edges@.len(),
            index <= paths@.len(),
            index == 0 ==> edges@ == initial,
            initial == old(edges)@,
            edges@.len() >= initial.len(),
            forall|k: int| 0 <= k < initial.len() ==> #[trigger] edges@[k] == initial[k],
            forall|k: int| initial.len() <= k < edges@.len() ==> edge_of_paths(paths@, #[trigger] edges@[k]),
            initial_subjects == old(edge_subjects)@,
            forall|k: int| 0 <= k < initial.len() ==> #[trigger] edge_subjects@[k] == initial_subjects[k],
            forall|k: int| initial.len() <= k < edges@.len() ==> #[trigger] edge_subjects@[k] == subject,
            steps_collected(edges@, initial.len() as int, paths@, index as int),
        decreases paths@.len() - index,
    {
        let path = &paths[index];
        proof {
            assert(points_wf(paths@[index as int]@));
        }
        let len = path.len();
        let mut k: usize = 0;
        while k < len
            invariant
                len == path@.len(),
                points_wf(path@),
                edges_wf(edges@),
                edge_subjects@.len() == edges@.len(),
                k <= len,
                index < paths@.len(),
                path@ == paths@[index as int]@,
                edges@.len() >= initial.len(),
                forall|k: int| 0 <= k < initial.len() ==> #[trigger] edges@[k] == initial[k],
                forall|k: int| initial.len() <= k < edges@.len() ==> edge_of_paths(paths@, #[trigger] edges@[k]),
                forall|k: int| 0 <= k < initial.len() ==> #[trigger] edge_subjects@[k] == initial_subjects[k],
                forall|k: int| initial.len() <= k < edges@.len() ==> #[trigger] edge_subjects@[k] == subject,
                steps_collected(edges@, initial.len() as int, paths@, index as int),
                forall|m: int| 0 <= m < k && #[trigger] proper_step(path@, m) ==> step_collected(
                    edges@,
                    initial.len() as int,
                    path@,
                    m,
                ),
            decreases len - k,
        {
            let next = if k + 1 == len {
                0
            } else {
                k + 1
            };
            proof {
                assert(path@[k as int].wf());
                assert(path@[next as int].wf());
            }
            let ghost before = edges@;
            if !path[k].equals(&path[next]) {
                edges.push(Edge::new(path[k].copy(), path[next].copy()));
                edge_subjects.push(subject);
                proof {
                    assert(edge_of_path(paths@[index as int]@, k as int, edges@[before.len() as int]));
                    assert forall|j: int| initial.len() <= j < edges@.len() implies edge_of_paths(
                        paths@,
                        #[trigger] edges@[j],
                    ) by {
                        if j < before.len() {
                            assert(edges@[j] == before[j]);
                        }
                    }
                    assert forall|j: int| 0 <= j < initial.len() implies #[trigger] edges@[j] == initial[j] by {
                        assert(edges@[j] == before[j]);
                    }
                }
            }
            proof {
                lemma_collected_grows(before, edges@, initial.len() as int, paths@, index as int);
                assert forall|m: int| 0 <= m < k + 1 && #[trigger] proper_step(path@, m) implies step_collected(
                    edges@,
                    initial.len() as int,
                    path@,
                    m,
                ) by {
                    if m < k {
                        lemma_step_collected_grows(before, edges@, initial.len() as int, path@, m);
                    } else {
                        assert(edge_of_path(path@, m, edges@[before.len() as int]));
                    }
                }
            }
            k += 1;
        }
        proof {
            assert forall|p: int, m: int|
                0 <= p < index + 1 && 0 <= m < paths@[p]@.len() && #[trigger] proper_step(paths@[p]@, m)
                implies step_collected(edges@, initial.len() as int, paths@[p]@, m) by {
                if p < index {
                    assert(steps_collected(edges@, initial.len() as int, paths@, index as int));
                } else {
                    assert(paths@[p]@ == path@);
                }
            }
        }
        index += 1;
    }
}

} // verus!
