//! Integer-only broad phase: a bounding-box tree that reports every pair of
//! touching boxes, and the certificate that rings are simple and mutually
//! separated which it serves.

use vstd::prelude::*;

use crate::geometry::{Point64, checked_cross, cross_fits, cross_value, sign};

verus! {

/// An axis-aligned box: minimum x, minimum y, maximum x, maximum y.
pub type Bounds = (i64, i64, i64, i64);

/// The most entries a tree leaf holds.
pub const LEAF_CAPACITY: usize = 8;

/// Whether two closed boxes share at least one point.
pub open spec fn boxes_touch(a: Bounds, b: Bounds) -> bool {
    a.0 <= b.2 && b.0 <= a.2 && a.1 <= b.3 && b.1 <= a.3
}

/// Whether box `outer` contains box `inner`.
pub open spec fn box_contains(outer: Bounds, inner: Bounds) -> bool {
    outer.0 <= inner.0 && outer.1 <= inner.1 && inner.2 <= outer.2 && inner.3 <= outer.3
}

/// The smallest box that contains both boxes.
pub open spec fn box_union(a: Bounds, b: Bounds) -> Bounds {
    (
        if a.0 <= b.0 { a.0 } else { b.0 },
        if a.1 <= b.1 { a.1 } else { b.1 },
        if a.2 >= b.2 { a.2 } else { b.2 },
        if a.3 >= b.3 { a.3 } else { b.3 },
    )
}

/// The box spanned by two points.
pub open spec fn edge_box(start: Point64, end: Point64) -> Bounds {
    (
        if start.x <= end.x { start.x } else { end.x },
        if start.y <= end.y { start.y } else { end.y },
        if start.x >= end.x { start.x } else { end.x },
        if start.y >= end.y { start.y } else { end.y },
    )
}

/// The box of a nonempty path's points.
pub open spec fn path_box(path: Seq<Point64>) -> Bounds
    decreases path.len(),
{
    if path.len() <= 1 {
        edge_box(path[0], path[0])
    } else {
        box_union(path_box(path.drop_last()), edge_box(path.last(), path.last()))
    }
}

/// Whether two closed boxes touch or overlap.
pub fn boxes_touch_or_overlap64(a: Bounds, b: Bounds) -> (result: bool)
    ensures
        result == boxes_touch(a, b),
{
    a.0 <= b.2 && b.0 <= a.2 && a.1 <= b.3 && b.1 <= a.3
}

fn union_bounds(a: Bounds, b: Bounds) -> (result: Bounds)
    ensures
        result == box_union(a, b),
{
    (
        if a.0 <= b.0 { a.0 } else { b.0 },
        if a.1 <= b.1 { a.1 } else { b.1 },
        if a.2 >= b.2 { a.2 } else { b.2 },
        if a.3 >= b.3 { a.3 } else { b.3 },
    )
}

/// The box of an edge.
pub fn edge_bounds(start: Point64, end: Point64) -> (result: Bounds)
    ensures
        result == edge_box(start, end),
{
    (
        if start.x <= end.x { start.x } else { end.x },
        if start.y <= end.y { start.y } else { end.y },
        if start.x >= end.x { start.x } else { end.x },
        if start.y >= end.y { start.y } else { end.y },
    )
}

/// The box of a path's points; `None` for an empty path.
pub fn path_bounds64(path: &[Point64]) -> (result: Option<Bounds>)
    ensures
        result is None <==> path@.len() == 0,
        result matches Some(bounds) ==> bounds == path_box(path@),
{
    if path.len() == 0 {
        return None;
    }
    let mut bounds = edge_bounds(path[0], path[0]);
    let mut index: usize = 1;
    proof {
        assert(path@.subrange(0, 1).len() == 1);
    }
    while index < path.len()
        invariant
            1 <= index <= path@.len(),
            bounds == path_box(path@.subrange(0, index as int)),
        decreases path@.len() - index,
    {
        proof {
            assert(path@.subrange(0, index + 1).drop_last() =~= path@.subrange(0, index as int));
        }
        bounds = union_bounds(bounds, edge_bounds(path[index], path[index]));
        index += 1;
    }
    proof {
        assert(path@.subrange(0, path@.len() as int) =~= path@);
    }
    Some(bounds)
}

/// A box with the position of the item it belongs to.
#[derive(Clone, Copy, Debug)]
struct Entry {
    bounds: Bounds,
    id: usize,
}

/// A tree node over `entries[start..end]`. An inner node's left child
/// follows it; `right` is its right child, and zero marks a leaf.
#[derive(Clone, Copy, Debug)]
struct Node {
    bounds: Bounds,
    start: usize,
    end: usize,
    right: usize,
}

struct Tree<'a> {
    entries: &'a [Entry],
    nodes: Vec<Node>,
}

/// Whether `entries` holds each of the boxes `original` once, with its
/// position as the id.
spec fn has_id(entries: Seq<Entry>, id: int) -> bool {
    exists|p: int| 0 <= p < entries.len() && (#[trigger] entries[p]).id == id
}

spec fn entries_wf(entries: Seq<Entry>, original: Seq<Bounds>) -> bool {
    &&& entries.len() == original.len()
    &&& forall|k: int|
        0 <= k < entries.len() ==> (#[trigger] entries[k]).id < original.len() && entries[k].bounds
            == original[entries[k].id as int]
    &&& forall|p: int, q: int|
        0 <= p < entries.len() && 0 <= q < entries.len() && p != q ==> (#[trigger] entries[p]).id
            != (#[trigger] entries[q]).id
    &&& forall|i: int| 0 <= i < original.len() ==> #[trigger] has_id(entries, i)
}

proof fn lemma_swap_wf(entries: Seq<Entry>, original: Seq<Bounds>, a: int, b: int)
    requires
        entries_wf(entries, original),
        0 <= a < entries.len(),
        0 <= b < entries.len(),
    ensures
        entries_wf(entries.update(a, entries[b]).update(b, entries[a]), original),
{
    let swapped = entries.update(a, entries[b]).update(b, entries[a]);
    assert forall|p: int, q: int|
        0 <= p < swapped.len() && 0 <= q < swapped.len() && p != q implies (#[trigger] swapped[p]).id
        != (#[trigger] swapped[q]).id by {
        let pp = if p == b {
            a
        } else if p == a {
            b
        } else {
            p
        };
        let qq = if q == b {
            a
        } else if q == a {
            b
        } else {
            q
        };
        assert(swapped[p] == entries[pp]);
        assert(swapped[q] == entries[qq]);
        assert(entries[pp].id != entries[qq].id);
    }
    assert forall|i: int| 0 <= i < original.len() implies #[trigger] has_id(swapped, i) by {
        assert(has_id(entries, i));
        let p = choose|p: int| 0 <= p < entries.len() && (#[trigger] entries[p]).id == i;
        let w = if p == a {
            b
        } else if p == b {
            a
        } else {
            p
        };
        assert(swapped[w] == entries[p]);
    }
    assert forall|k: int| 0 <= k < swapped.len() implies (#[trigger] swapped[k]).id < original.len()
        && swapped[k].bounds == original[swapped[k].id as int] by {
        let kk = if k == b {
            a
        } else if k == a {
            b
        } else {
            k
        };
        assert(swapped[k] == entries[kk]);
    }
}

spec fn lo(a: usize, b: usize) -> usize {
    if a <= b {
        a
    } else {
        b
    }
}

spec fn hi(a: usize, b: usize) -> usize {
    if a <= b {
        b
    } else {
        a
    }
}

/// The visitor reported `result` for the pair of `a` and `b`, smaller id first.
spec fn pair_result<F: Fn(usize, usize) -> Option<()>>(visit: F, a: Entry, b: Entry, result: Option<()>) -> bool {
    visit.ensures((lo(a.id, b.id), hi(a.id, b.id)), result)
}

/// A pair is fine when its boxes do not touch or the visitor accepted it.
spec fn pair_ok<F: Fn(usize, usize) -> Option<()>>(visit: F, a: Entry, b: Entry) -> bool {
    boxes_touch(a.bounds, b.bounds) ==> pair_result(visit, a, b, Some(()))
}

/// A pair whose boxes touch and which the visitor rejected.
spec fn pair_fails<F: Fn(usize, usize) -> Option<()>>(visit: F, a: Entry, b: Entry) -> bool {
    boxes_touch(a.bounds, b.bounds) && pair_result(visit, a, b, None)
}

/// The visitor may be called on any pair of ids below `n`.
pub open spec fn visitable<F: Fn(usize, usize) -> Option<()>>(visit: F, n: nat) -> bool {
    forall|i: usize, j: usize| i < n && j < n ==> #[trigger] visit.requires((i, j))
}

spec fn ids_below(entries: Seq<Entry>, n: nat) -> bool {
    forall|k: int| 0 <= k < entries.len() ==> (#[trigger] entries[k]).id < n
}

fn visit_pair<F: Fn(usize, usize) -> Option<()>>(a: Entry, b: Entry, visit: &F, Ghost(n): Ghost<nat>) -> (result: Option<()>)
    requires
        a.id < n,
        b.id < n,
        visitable(*visit, n),
    ensures
        result is Some ==> pair_ok(*visit, a, b),
        result is None ==> pair_fails(*visit, a, b),
{
    if boxes_touch_or_overlap64(a.bounds, b.bounds) {
        let first = if a.id <= b.id {
            a.id
        } else {
            b.id
        };
        let second = if a.id <= b.id {
            b.id
        } else {
            a.id
        };
        assert(visit.requires((first, second)));
        let answer = visit(first, second);
        assert(visit.ensures((first, second), answer));
        match answer {
            None => return None,
            Some(()) => {
                assert(answer == Some(()));
                assert(pair_result(*visit, a, b, Some(())));
            },
        }
    }
    Some(())
}

fn visit_leaf<F: Fn(usize, usize) -> Option<()>>(
    entries: &[Entry],
    start: usize,
    end: usize,
    visit: &F,
    Ghost(n): Ghost<nat>,
) -> (result: Option<()>)
    requires
        start <= end <= entries@.len(),
        ids_below(entries@, n),
        visitable(*visit, n),
    ensures
        result is Some ==> forall|p: int, q: int|
            start <= p < q < end ==> #[trigger] pair_ok(*visit, entries@[p], entries@[q]),
        result is None ==> exists|p: int, q: int|
            start <= p < q < end && #[trigger] pair_fails(*visit, entries@[p], entries@[q]),
{
    let mut index = start;
    while index < end
        invariant
            start <= index <= end <= entries@.len(),
            ids_below(entries@, n),
            visitable(*visit, n),
            forall|p: int, q: int| start <= p < index && p < q < end ==> #[trigger] pair_ok(*visit, entries@[p], entries@[q]),
        decreases end - index,
    {
        let a = entries[index];
        let mut other = index + 1;
        while other < end
            invariant
                start <= index < other <= end,
                end <= entries@.len(),
                a == entries@[index as int],
                ids_below(entries@, n),
                visitable(*visit, n),
                forall|p: int, q: int| start <= p < index && p < q < end ==> #[trigger] pair_ok(*visit, entries@[p], entries@[q]),
                forall|q: int| index < q < other ==> #[trigger] pair_ok(*visit, entries@[index as int], entries@[q]),
            decreases end - other,
        {
            let b = entries[other];
            match visit_pair(a, b, visit, Ghost(n)) {
                None => {
                    assert(pair_fails(*visit, entries@[index as int], entries@[other as int]));
                    return None;
                },
                Some(()) => {},
            }
            other += 1;
        }
        index += 1;
    }
    Some(())
}

/// Node `i` covers a nonempty range whose boxes it contains; an inner node
/// has its left child right after it and its right child later, splitting
/// the range in two nonempty halves.
spec fn node_ok(nodes: Seq<Node>, entries: Seq<Entry>, i: int) -> bool {
    let node = nodes[i];
    &&& node.start < node.end <= entries.len()
    &&& forall|k: int| node.start <= k < node.end ==> box_contains(node.bounds, (#[trigger] entries[k]).bounds)
    &&& node.right != 0 ==> {
        &&& i + 1 < node.right < nodes.len()
        &&& nodes[i + 1].start == node.start
        &&& nodes[i + 1].end == nodes[node.right as int].start
        &&& nodes[node.right as int].end == node.end
        &&& node.start < nodes[node.right as int].start < node.end
    }
}

spec fn tree_wf(nodes: Seq<Node>, entries: Seq<Entry>) -> bool {
    forall|i: int| 0 <= i < nodes.len() ==> #[trigger] node_ok(nodes, entries, i)
}

proof fn lemma_node_ok_frame(nodes: Seq<Node>, entries: Seq<Entry>, nodes2: Seq<Node>, entries2: Seq<Entry>, i: int)
    requires
        0 <= i < nodes.len(),
        node_ok(nodes, entries, i),
        nodes.len() <= nodes2.len(),
        nodes2[i] == nodes[i],
        nodes[i].right != 0 ==> nodes2[i + 1] == nodes[i + 1] && nodes2[nodes[i].right as int]
            == nodes[nodes[i].right as int],
        entries2.len() == entries.len(),
        forall|k: int| nodes[i].start <= k < nodes[i].end ==> entries2[k] == entries[k],
    ensures
        node_ok(nodes2, entries2, i),
{
    let node = nodes[i];
    assert forall|k: int| node.start <= k < node.end implies box_contains(node.bounds, (#[trigger] entries2[k]).bounds) by {
        assert(entries2[k] == entries[k]);
    }
}

impl<'a> Tree<'a> {
    fn visit_same<F: Fn(usize, usize) -> Option<()>>(&self, index: usize, visit: &F, Ghost(n): Ghost<nat>) -> (result:
        Option<()>)
        requires
            tree_wf(self.nodes@, self.entries@),
            index < self.nodes@.len(),
            ids_below(self.entries@, n),
            visitable(*visit, n),
        ensures
            result is Some ==> forall|p: int, q: int|
                self.nodes@[index as int].start <= p < q < self.nodes@[index as int].end ==> #[trigger] pair_ok(
                    *visit,
                    self.entries@[p],
                    self.entries@[q],
                ),
            result is None ==> exists|p: int, q: int|
                self.nodes@[index as int].start <= p < q < self.nodes@[index as int].end && #[trigger] pair_fails(
                    *visit,
                    self.entries@[p],
                    self.entries@[q],
                ),
        decreases self.nodes@[index as int].end - self.nodes@[index as int].start,
    {
        let node = self.nodes[index];
        assert(node_ok(self.nodes@, self.entries@, index as int));
        if node.right == 0 {
            return visit_leaf(self.entries, node.start, node.end, visit, Ghost(n));
        }
        let left = index + 1;
        assert(node_ok(self.nodes@, self.entries@, left as int));
        assert(node_ok(self.nodes@, self.entries@, node.right as int));
        let middle = self.nodes[node.right].start;
        match self.visit_same(left, visit, Ghost(n)) {
            None => return None,
            Some(()) => {},
        }
        match self.visit_cross(left, node.right, visit, Ghost(n)) {
            None => return None,
            Some(()) => {},
        }
        match self.visit_same(node.right, visit, Ghost(n)) {
            None => return None,
            Some(()) => {},
        }
        assert forall|p: int, q: int| node.start <= p < q < node.end implies #[trigger] pair_ok(
            *visit,
            self.entries@[p],
            self.entries@[q],
        ) by {
            if q < middle {
            } else if p < middle {
            } else {
            }
        }
        Some(())
    }

    fn visit_cross<F: Fn(usize, usize) -> Option<()>>(
        &self,
        first: usize,
        second: usize,
        visit: &F,
        Ghost(n): Ghost<nat>,
    ) -> (result: Option<()>)
        requires
            tree_wf(self.nodes@, self.entries@),
            first < self.nodes@.len(),
            second < self.nodes@.len(),
            self.nodes@[first as int].end <= self.nodes@[second as int].start,
            ids_below(self.entries@, n),
            visitable(*visit, n),
        ensures
            result is Some ==> forall|p: int, q: int|
                self.nodes@[first as int].start <= p < self.nodes@[first as int].end && self.nodes@[second as int].start
                    <= q < self.nodes@[second as int].end ==> #[trigger] pair_ok(*visit, self.entries@[p], self.entries@[q]),
            result is None ==> exists|p: int, q: int|
                self.nodes@[first as int].start <= p < self.nodes@[first as int].end && self.nodes@[second as int].start
                    <= q < self.nodes@[second as int].end && #[trigger] pair_fails(
                    *visit,
                    self.entries@[p],
                    self.entries@[q],
                ),
        decreases (self.nodes@[first as int].end - self.nodes@[first as int].start) + (self.nodes@[second as int].end
            - self.nodes@[second as int].start),
    {
        let a = self.nodes[first];
        let b = self.nodes[second];
        assert(node_ok(self.nodes@, self.entries@, first as int));
        assert(node_ok(self.nodes@, self.entries@, second as int));
        if !boxes_touch_or_overlap64(a.bounds, b.bounds) {
            assert forall|p: int, q: int|
                a.start <= p < a.end && b.start <= q < b.end implies #[trigger] pair_ok(
                *visit,
                self.entries@[p],
                self.entries@[q],
            ) by {
                assert(box_contains(a.bounds, self.entries@[p].bounds));
                assert(box_contains(b.bounds, self.entries@[q].bounds));
            }
            return Some(());
        }
        if a.right == 0 && b.right == 0 {
            let mut left = a.start;
            while left < a.end
                invariant
                    a == self.nodes@[first as int],
                    b == self.nodes@[second as int],
                    a.start <= left <= a.end,
                    a.end <= b.start,
                    b.start < b.end <= self.entries@.len(),
                    ids_below(self.entries@, n),
                    visitable(*visit, n),
                    forall|p: int, q: int|
                        a.start <= p < left && b.start <= q < b.end ==> #[trigger] pair_ok(
                            *visit,
                            self.entries@[p],
                            self.entries@[q],
                        ),
                decreases a.end - left,
            {
                let x = self.entries[left];
                let mut right = b.start;
                while right < b.end
                    invariant
                        a == self.nodes@[first as int],
                        b == self.nodes@[second as int],
                        a.start <= left < a.end,
                        a.end <= b.start <= right <= b.end,
                        b.end <= self.entries@.len(),
                        x == self.entries@[left as int],
                        ids_below(self.entries@, n),
                        visitable(*visit, n),
                        forall|p: int, q: int|
                            a.start <= p < left && b.start <= q < b.end ==> #[trigger] pair_ok(
                                *visit,
                                self.entries@[p],
                                self.entries@[q],
                            ),
                        forall|q: int| b.start <= q < right ==> #[trigger] pair_ok(*visit, self.entries@[left as int], self.entries@[q]),
                    decreases b.end - right,
                {
                    let y = self.entries[right];
                    match visit_pair(x, y, visit, Ghost(n)) {
                        None => {
                            assert(pair_fails(*visit, self.entries@[left as int], self.entries@[right as int]));
                            return None;
                        },
                        Some(()) => {},
                    }
                    right += 1;
                }
                left += 1;
            }
            return Some(());
        }
        if b.right == 0 || (a.right != 0 && a.end - a.start >= b.end - b.start) {
            assert(node_ok(self.nodes@, self.entries@, first + 1));
            assert(node_ok(self.nodes@, self.entries@, a.right as int));
            let middle = self.nodes[a.right].start;
            match self.visit_cross(first + 1, second, visit, Ghost(n)) {
                None => return None,
                Some(()) => {},
            }
            match self.visit_cross(a.right, second, visit, Ghost(n)) {
                None => return None,
                Some(()) => {},
            }
            assert forall|p: int, q: int|
                a.start <= p < a.end && b.start <= q < b.end implies #[trigger] pair_ok(
                *visit,
                self.entries@[p],
                self.entries@[q],
            ) by {
                if p < middle {
                } else {
                }
            }
            Some(())
        } else {
            assert(node_ok(self.nodes@, self.entries@, second + 1));
            assert(node_ok(self.nodes@, self.entries@, b.right as int));
            let middle = self.nodes[b.right].start;
            match self.visit_cross(first, second + 1, visit, Ghost(n)) {
                None => return None,
                Some(()) => {},
            }
            match self.visit_cross(first, b.right, visit, Ghost(n)) {
                None => return None,
                Some(()) => {},
            }
            assert forall|p: int, q: int|
                a.start <= p < a.end && b.start <= q < b.end implies #[trigger] pair_ok(
                *visit,
                self.entries@[p],
                self.entries@[q],
            ) by {
                if q < middle {
                } else {
                }
            }
            Some(())
        }
    }
}


/// Twice the center of a box along one axis: no division, rounding or `i64`
/// overflow.
fn center(bounds: Bounds, vertical: bool) -> (result: i128)
    ensures
        result == if vertical {
            bounds.1 + bounds.3
        } else {
            bounds.0 + bounds.2
        },
{
    if vertical {
        bounds.1 as i128 + bounds.3 as i128
    } else {
        bounds.0 as i128 + bounds.2 as i128
    }
}

/// Whether `a` comes before `b`: by center along the split axis, then by id.
spec fn entry_less(a: Entry, b: Entry, vertical: bool) -> bool {
    let first = if vertical { a.bounds.1 + a.bounds.3 } else { a.bounds.0 + a.bounds.2 };
    let second = if vertical { b.bounds.1 + b.bounds.3 } else { b.bounds.0 + b.bounds.2 };
    first < second || (first == second && a.id < b.id)
}

/// No later entry of `entries[start..end]` comes before an earlier one.
spec fn sorted_range(entries: Seq<Entry>, start: int, end: int, vertical: bool) -> bool {
    forall|p: int, q: int| start <= p < q < end ==> !entry_less(#[trigger] entries[q], #[trigger] entries[p], vertical)
}

/// Orders entries by center along the split axis, then by id.
fn entry_before(a: Entry, b: Entry, vertical: bool) -> (result: bool)
    ensures
        result == entry_less(a, b, vertical),
{
    let first = center(a.bounds, vertical);
    let second = center(b.bounds, vertical);
    first < second || (first == second && a.id < b.id)
}

/// Sorts `entries[start..end]` by center along the split axis, then by id,
/// so that the two halves of the range are spatially separated.
#[verifier::spinoff_prover]
fn sort_range(entries: &mut Vec<Entry>, start: usize, end: usize, vertical: bool, Ghost(original): Ghost<Seq<Bounds>>)
    requires
        start <= end <= old(entries)@.len(),
        entries_wf(old(entries)@, original),
    ensures
        entries_wf(final(entries)@, original),
        final(entries)@.len() == old(entries)@.len(),
        forall|k: int|
            0 <= k < old(entries)@.len() && !(start <= k < end) ==> #[trigger] final(entries)@[k] == old(entries)@[k],
        sorted_range(final(entries)@, start as int, end as int, vertical),
{
    if end - start < 2 {
        return;
    }
    let ghost initial = entries@;
    let mut i = start + 1;
    while i < end
        invariant
            start < i <= end <= entries@.len(),
            entries_wf(entries@, original),
            entries@.len() == initial.len(),
            forall|k: int| 0 <= k < initial.len() && !(start <= k < end) ==> #[trigger] entries@[k] == initial[k],
            sorted_range(entries@, start as int, i as int, vertical),
        decreases end - i,
    {
        let mut j = i;
        while j > start && entry_before(entries[j], entries[j - 1], vertical)
            invariant
                start <= j <= i < end <= entries@.len(),
                entries_wf(entries@, original),
                entries@.len() == initial.len(),
                forall|k: int| 0 <= k < initial.len() && !(start <= k < end) ==> #[trigger] entries@[k] == initial[k],
                forall|p: int, q: int|
                    start <= p < q <= i && p != j && q != j ==> !entry_less(
                        #[trigger] entries@[q],
                        #[trigger] entries@[p],
                        vertical,
                    ),
                forall|q: int| j < q <= i ==> entry_less(entries@[j as int], #[trigger] entries@[q], vertical),
            decreases j,
        {
            let x = entries[j];
            let y = entries[j - 1];
            proof {
                lemma_swap_wf(entries@, original, j as int, j - 1);
            }
            let ghost before = entries@;
            entries.set(j, y);
            entries.set(j - 1, x);
            proof {
                assert forall|p: int, q: int|
                    start <= p < q <= i && p != j - 1 && q != j - 1 implies !entry_less(
                    #[trigger] entries@[q],
                    #[trigger] entries@[p],
                    vertical,
                ) by {
                    let pp = if p == j { j - 1 } else { p };
                    let qq = if q == j { j - 1 } else { q };
                    assert(entries@[p] == before[pp] && entries@[q] == before[qq]);
                    if q == j as int {
                        assert(!entry_less(before[j - 1], before[p], vertical));
                    } else if p == j as int {
                        assert(!entry_less(before[q], before[j - 1], vertical));
                    }
                }
                assert forall|q: int| j - 1 < q <= i implies entry_less(entries@[j - 1], #[trigger] entries@[q], vertical) by {
                    if q > j {
                        assert(entries@[q] == before[q]);
                    }
                }
            }
            j -= 1;
        }
        proof {
            assert forall|p: int, q: int| start <= p < q < i + 1 implies !entry_less(
                #[trigger] entries@[q],
                #[trigger] entries@[p],
                vertical,
            ) by {
                if q == j as int {
                    assert(!entry_less(entries@[j as int], entries@[j - 1], vertical));
                    if p < j - 1 {
                        assert(!entry_less(entries@[j - 1], entries@[p], vertical));
                    }
                } else if p == j as int {
                    assert(entry_less(entries@[j as int], entries@[q], vertical));
                }
            }
        }
        i += 1;
    }
}

/// The box of `entries[start..end]`.
fn range_bounds(entries: &Vec<Entry>, start: usize, end: usize) -> (result: Bounds)
    requires
        start < end <= entries@.len(),
    ensures
        forall|k: int| start <= k < end ==> box_contains(result, (#[trigger] entries@[k]).bounds),
{
    let mut bounds = entries[start].bounds;
    let mut index = start + 1;
    while index < end
        invariant
            start < index <= end <= entries@.len(),
            forall|k: int| start <= k < index ==> box_contains(bounds, (#[trigger] entries@[k]).bounds),
        decreases end - index,
    {
        bounds = union_bounds(bounds, entries[index].bounds);
        index += 1;
    }
    bounds
}

/// Builds the subtree over `entries[start..end]` and returns its root.
fn build(
    entries: &mut Vec<Entry>,
    nodes: &mut Vec<Node>,
    start: usize,
    end: usize,
    Ghost(original): Ghost<Seq<Bounds>>,
) -> (index: usize)
    requires
        start < end <= old(entries)@.len(),
        entries_wf(old(entries)@, original),
    ensures
        entries_wf(final(entries)@, original),
        final(entries)@.len() == old(entries)@.len(),
        forall|k: int|
            0 <= k < old(entries)@.len() && !(start <= k < end) ==> #[trigger] final(entries)@[k] == old(entries)@[k],
        index == old(nodes)@.len(),
        index < final(nodes)@.len(),
        forall|k: int| 0 <= k < old(nodes)@.len() ==> #[trigger] final(nodes)@[k] == old(nodes)@[k],
        final(nodes)@[index as int].start == start,
        final(nodes)@[index as int].end == end,
        forall|i: int|
            index <= i < final(nodes)@.len() ==> #[trigger] node_ok(final(nodes)@, final(entries)@, i) && start
                <= final(nodes)@[i].start && final(nodes)@[i].end <= end,
    decreases end - start,
{
    let bounds = range_bounds(entries, start, end);
    let index = nodes.len();
    nodes.push(Node { bounds, start, end, right: 0 });
    if end - start > LEAF_CAPACITY {
        let vertical = (bounds.3 as i128) - (bounds.1 as i128) > (bounds.2 as i128) - (bounds.0 as i128);
        let middle = start + (end - start) / 2;
        sort_range(entries, start, end, vertical, Ghost(original));
        let ghost entries1 = entries@;
        let ghost nodes1 = nodes@;
        let left = build(entries, nodes, start, middle, Ghost(original));
        let ghost entries2 = entries@;
        let ghost nodes2 = nodes@;
        let right = build(entries, nodes, middle, end, Ghost(original));
        let ghost entries3 = entries@;
        let ghost nodes3 = nodes@;
        proof {
            assert forall|i: int| left <= i < nodes2.len() implies #[trigger] node_ok(nodes3, entries3, i) by {
                assert(node_ok(nodes2, entries2, i));
                lemma_node_ok_frame(nodes2, entries2, nodes3, entries3, i);
            }
            assert(node_ok(nodes3, entries3, left as int));
            assert(node_ok(nodes3, entries3, right as int));
            assert(nodes3[left as int] == nodes2[left as int]);
            assert(left == index + 1);
            assert(right == nodes2.len());
            assert(nodes3[left as int].start == start && nodes3[left as int].end == middle);
            assert(nodes3[right as int].start == middle && nodes3[right as int].end == end);
            assert forall|i: int| left <= i < nodes3.len() implies start <= #[trigger] nodes3[i].start && nodes3[i].end
                <= end by {
                if i < nodes2.len() {
                    assert(nodes3[i] == nodes2[i]);
                    assert(node_ok(nodes2, entries2, i));
                } else {
                    assert(node_ok(nodes3, entries3, i));
                }
            }
        }
        let merged = union_bounds(nodes[left].bounds, nodes[right].bounds);
        nodes.set(index, Node { bounds: merged, start, end, right });
        proof {
            let nodes4 = nodes@;
            assert forall|i: int| index <= i < nodes4.len() implies #[trigger] node_ok(nodes4, entries3, i) && start
                <= nodes4[i].start && nodes4[i].end <= end by {
                if i == index {
                    assert forall|k: int| start <= k < end implies box_contains(
                        merged,
                        (#[trigger] entries3[k]).bounds,
                    ) by {
                        if k < middle {
                            assert(box_contains(nodes3[left as int].bounds, entries3[k].bounds));
                        } else {
                            assert(box_contains(nodes3[right as int].bounds, entries3[k].bounds));
                        }
                    }
                } else {
                    assert(node_ok(nodes3, entries3, i));
                    assert(nodes4[i] == nodes3[i]);
                    lemma_node_ok_frame(nodes3, entries3, nodes4, entries3, i);
                }
            }
        }
    } else {
        proof {
            assert(node_ok(nodes@, entries@, index as int));
        }
    }
    index
}

/// Calls `visit` on every pair of positions whose boxes touch, the smaller
/// position first, and stops at the first pair that `visit` rejects.
///
/// `Some(())` means every touching pair was accepted; `None` means some
/// touching pair was rejected.
pub fn visit_pairs<F: Fn(usize, usize) -> Option<()>>(bounds: &[Bounds], visit: &F) -> (result: Option<()>)
    requires
        visitable(*visit, bounds@.len()),
    ensures
        result is Some ==> forall|i: usize, j: usize|
            i < j < bounds@.len() && boxes_touch(bounds@[i as int], bounds@[j as int]) ==> #[trigger] visit.ensures(
                (i, j),
                Some(()),
            ),
        result is None ==> exists|i: usize, j: usize|
            i < j < bounds@.len() && boxes_touch(bounds@[i as int], bounds@[j as int]) && #[trigger] visit.ensures(
                (i, j),
                None,
            ),
{
    let len = bounds.len();
    let mut entries: Vec<Entry> = Vec::new();
    let mut index: usize = 0;
    while index < len
        invariant
            index <= len == bounds@.len(),
            entries@.len() == index,
            forall|k: int| 0 <= k < index ==> #[trigger] entries@[k] == (Entry { bounds: bounds@[k], id: k as usize }),
        decreases len - index,
    {
        entries.push(Entry { bounds: bounds[index], id: index });
        index += 1;
    }
    proof {
        assert forall|i: int| 0 <= i < bounds@.len() implies #[trigger] has_id(entries@, i) by {
            assert(entries@[i].id == i);
        }
        assert(entries_wf(entries@, bounds@));
    }
    let ghost n = len as nat;
    let result = if len <= LEAF_CAPACITY {
        visit_leaf(entries.as_slice(), 0, len, visit, Ghost(n))
    } else {
        let mut nodes: Vec<Node> = Vec::new();
        let root = build(&mut entries, &mut nodes, 0, len, Ghost(bounds@));
        let tree = Tree { entries: entries.as_slice(), nodes };
        let answer = tree.visit_same(root, visit, Ghost(n));
        proof {
            assert(tree.nodes@[0].start == 0 && tree.nodes@[0].end == len);
            assert(tree.entries@ == entries@);
        }
        answer
    };
    proof {
        assert(result is Some ==> forall|p: int, q: int| 0 <= p < q < len ==> #[trigger] pair_ok(
            *visit,
            entries@[p],
            entries@[q],
        ));
        assert(result is None ==> exists|p: int, q: int| 0 <= p < q < len && #[trigger] pair_fails(
            *visit,
            entries@[p],
            entries@[q],
        ));
    }
    proof {
        let final_entries = entries@;
        assert(entries_wf(final_entries, bounds@));
        if result is Some {
            assert forall|i: usize, j: usize|
                i < j < bounds@.len() && boxes_touch(bounds@[i as int], bounds@[j as int]) implies #[trigger] visit.ensures(
                (i, j),
                Some(()),
            ) by {
                assert(has_id(final_entries, i as int));
                assert(has_id(final_entries, j as int));
                let p = choose|p: int| 0 <= p < final_entries.len() && (#[trigger] final_entries[p]).id == i as int;
                let q = choose|q: int| 0 <= q < final_entries.len() && (#[trigger] final_entries[q]).id == j as int;
                if p < q {
                    assert(pair_ok(*visit, final_entries[p], final_entries[q]));
                } else {
                    assert(pair_ok(*visit, final_entries[q], final_entries[p]));
                }
            }
        } else {
            let (p, q) = choose|p: int, q: int|
                0 <= p < q < len && #[trigger] pair_fails(*visit, final_entries[p], final_entries[q]);
            let a = final_entries[p];
            let b = final_entries[q];
            assert(a.id != b.id);
            let i = lo(a.id, b.id);
            let j = hi(a.id, b.id);
            assert(i < j < bounds@.len() && boxes_touch(bounds@[i as int], bounds@[j as int]) && visit.ensures(
                (i, j),
                None,
            ));
        }
    }
    result
}

/// Whether `point` lies in the closed box spanned by `a` and `b`.
pub open spec fn in_span(point: Point64, a: Point64, b: Point64) -> bool {
    &&& (if a.x <= b.x { a.x <= point.x <= b.x } else { b.x <= point.x <= a.x })
    &&& (if a.y <= b.y { a.y <= point.y <= b.y } else { b.y <= point.y <= a.y })
}

/// Whether two values have strictly opposite signs.
pub open spec fn opposite(first: int, second: int) -> bool {
    (first > 0 && second < 0) || (first < 0 && second > 0)
}

/// Whether the closed segments `a0-a1` and `b0-b1` meet anywhere but at an
/// endpoint that both share: a proper crossing, an endpoint of one inside the
/// other, or the same segment twice.
pub open spec fn edges_contact(a0: Point64, a1: Point64, b0: Point64, b1: Point64) -> bool {
    let c1 = cross_value(a0, a1, b0);
    let c2 = cross_value(a0, a1, b1);
    let c3 = cross_value(b0, b1, a0);
    let c4 = cross_value(b0, b1, a1);
    ||| (opposite(c1, c2) && opposite(c3, c4))
    ||| (c1 == 0 && in_span(b0, a0, a1) && b0 != a0 && b0 != a1)
    ||| (c2 == 0 && in_span(b1, a0, a1) && b1 != a0 && b1 != a1)
    ||| (c3 == 0 && in_span(a0, b0, b1) && a0 != b0 && a0 != b1)
    ||| (c4 == 0 && in_span(a1, b0, b1) && a1 != b0 && a1 != b1)
    ||| (a0 != a1 && ((a0 == b0 && a1 == b1) || (a0 == b1 && a1 == b0)))
}

/// The contact test of two segments, or `None` when one of its four cross
/// products leaves checked `i128` arithmetic.
pub open spec fn edges_intersect_spec(a0: Point64, a1: Point64, b0: Point64, b1: Point64) -> Option<bool> {
    if cross_fits(a0, a1, b0) && cross_fits(a0, a1, b1) && cross_fits(b0, b1, a0) && cross_fits(b0, b1, a1) {
        Some(edges_contact(a0, a1, b0, b1))
    } else {
        None
    }
}

fn point_in_span(point: Point64, a: Point64, b: Point64) -> (result: bool)
    ensures
        result == in_span(point, a, b),
{
    let x_in = if a.x <= b.x {
        a.x <= point.x && point.x <= b.x
    } else {
        b.x <= point.x && point.x <= a.x
    };
    let y_in = if a.y <= b.y {
        a.y <= point.y && point.y <= b.y
    } else {
        b.y <= point.y && point.y <= a.y
    };
    x_in && y_in
}

/// Whether two edges meet anywhere but at an endpoint they share; `None`
/// when the checked `i128` predicates cannot decide.
pub fn edges_intersect64(a: (Point64, Point64), b: (Point64, Point64)) -> (result: Option<bool>)
    ensures
        result == edges_intersect_spec(a.0, a.1, b.0, b.1),
{
    let c1 = match checked_cross(a.0, a.1, b.0) {
        Ok(value) => value,
        Err(_) => return None,
    };
    let c2 = match checked_cross(a.0, a.1, b.1) {
        Ok(value) => value,
        Err(_) => return None,
    };
    let c3 = match checked_cross(b.0, b.1, a.0) {
        Ok(value) => value,
        Err(_) => return None,
    };
    let c4 = match checked_cross(b.0, b.1, a.1) {
        Ok(value) => value,
        Err(_) => return None,
    };
    let proper = ((c1 > 0 && c2 < 0) || (c1 < 0 && c2 > 0)) && ((c3 > 0 && c4 < 0) || (c3 < 0 && c4 > 0));
    let touch_b0 = c1 == 0 && point_in_span(b.0, a.0, a.1) && b.0 != a.0 && b.0 != a.1;
    let touch_b1 = c2 == 0 && point_in_span(b.1, a.0, a.1) && b.1 != a.0 && b.1 != a.1;
    let touch_a0 = c3 == 0 && point_in_span(a.0, b.0, b.1) && a.0 != b.0 && a.0 != b.1;
    let touch_a1 = c4 == 0 && point_in_span(a.1, b.0, b.1) && a.1 != b.0 && a.1 != b.1;
    let same = a.0 != a.1 && ((a.0 == b.0 && a.1 == b.1) || (a.0 == b.1 && a.1 == b.0));
    Some(proper || touch_b0 || touch_b1 || touch_a0 || touch_a1 || same)
}

/// Edge `i` of a closed path: from point `i` to the next point, wrapping.
pub open spec fn edge_box_at(path: Seq<Point64>, i: int) -> Bounds {
    edge_box(path[i], path[(i + 1) % (path.len() as int)])
}

/// Whether edges `first < second` of a closed path pass the certificate:
/// only adjacent edges may share an endpoint, and no two edges meet
/// anywhere else, decided within checked `i128` arithmetic.
pub open spec fn edge_pair_ok(path: Seq<Point64>, first: int, second: int) -> bool {
    let len = path.len() as int;
    let a0 = path[first];
    let a1 = path[(first + 1) % len];
    let b0 = path[second];
    let b1 = path[(second + 1) % len];
    let adjacent = first + 1 == second || (first == 0 && second + 1 == len);
    let shares = a0 == b0 || a0 == b1 || a1 == b0 || a1 == b1;
    !(!adjacent && shares) && edges_intersect_spec(a0, a1, b0, b1) == Some(false)
}

/// Checks one pair of edges of a closed path.
pub fn certify_edge_pair(path: &[Point64], first: usize, second: usize) -> (result: Option<()>)
    requires
        first < path@.len(),
        second < path@.len(),
    ensures
        result is Some <==> edge_pair_ok(path@, first as int, second as int),
{
    let len = path.len();
    let a = (path[first], path[(first + 1) % len]);
    let b = (path[second], path[(second + 1) % len]);
    let adjacent = first + 1 == second || (first == 0 && second + 1 == len);
    // An endpoint-only contact is harmless only between adjacent edges.
    if !adjacent && (a.0 == b.0 || a.0 == b.1 || a.1 == b.0 || a.1 == b.1) {
        return None;
    }
    match edges_intersect64(a, b) {
        Some(false) => Some(()),
        _ => None,
    }
}

/// Every pair of edges of a closed path whose boxes touch passes the
/// certificate.
pub open spec fn ring_certified(path: Seq<Point64>) -> bool {
    forall|i: int, j: int|
        0 <= i < j < path.len() && boxes_touch(edge_box_at(path, i), edge_box_at(path, j)) ==> #[trigger] edge_pair_ok(
            path,
            i,
            j,
        )
}

/// Of two or more paths, no two have touching boxes.
pub open spec fn rings_separated(paths: Seq<Vec<Point64>>) -> bool {
    paths.len() > 1 ==> forall|i: int, j: int|
        0 <= i < j < paths.len() ==> !boxes_touch(#[trigger] path_box(paths[i]@), #[trigger] path_box(paths[j]@))
}

/// The rings are mutually separated by their boxes and each is simple.
pub open spec fn paths_certified(paths: Seq<Vec<Point64>>) -> bool {
    &&& rings_separated(paths)
    &&& forall|k: int| 0 <= k < paths.len() ==> #[trigger] ring_certified(paths[k]@)
}

/// Certifies, with integer predicates only, that closed rings are simple and
/// pairwise separated, so that they can be returned as they are. `None`
/// defers to the exact kernel.
pub fn certify_paths(paths: &[Vec<Point64>]) -> (result: Option<()>)
    requires
        paths@.len() > 1 ==> forall|k: int| 0 <= k < paths@.len() ==> (#[trigger] paths@[k])@.len() > 0,
    ensures
        result is Some <==> paths_certified(paths@),
{
    if paths.len() > 1 {
        let mut boxes: Vec<Bounds> = Vec::new();
        let mut index: usize = 0;
        while index < paths.len()
            invariant
                index <= paths@.len(),
                paths@.len() > 1,
                forall|k: int| 0 <= k < paths@.len() ==> (#[trigger] paths@[k])@.len() > 0,
                boxes@.len() == index,
                forall|k: int| 0 <= k < index ==> #[trigger] boxes@[k] == path_box(paths@[k]@),
            decreases paths@.len() - index,
        {
            assert(paths@[index as int]@.len() > 0);
            match path_bounds64(paths[index].as_slice()) {
                Some(bounds) => boxes.push(bounds),
                None => {
                    assert(false);
                    return None;
                },
            }
            index += 1;
        }
        let reject = |first: usize, second: usize| -> (answer: Option<()>)
            ensures
                answer is None,
            { None };
        match visit_pairs(boxes.as_slice(), &reject) {
            None => {
                proof {
                    let (i, j) = choose|i: usize, j: usize|
                        i < j < boxes@.len() && boxes_touch(boxes@[i as int], boxes@[j as int])
                            && #[trigger] reject.ensures((i, j), None);
                    assert(boxes_touch(path_box(paths@[i as int]@), path_box(paths@[j as int]@)));
                }
                return None;
            },
            Some(()) => {
                proof {
                    assert forall|i: int, j: int| 0 <= i < j < paths@.len() implies !boxes_touch(
                        #[trigger] path_box(paths@[i]@),
                        #[trigger] path_box(paths@[j]@),
                    ) by {
                        if boxes_touch(path_box(paths@[i]@), path_box(paths@[j]@)) {
                            assert(boxes@[i] == path_box(paths@[i]@));
                            assert(boxes@[j] == path_box(paths@[j]@));
                            assert(reject.ensures((i as usize, j as usize), Some(())));
                        }
                    }
                }
            },
        }
    }
    let mut k: usize = 0;
    while k < paths.len()
        invariant
            k <= paths@.len(),
            rings_separated(paths@),
            forall|m: int| 0 <= m < k ==> #[trigger] ring_certified(paths@[m]@),
        decreases paths@.len() - k,
    {
        let path = &paths[k];
        let len = path.len();
        let mut edges: Vec<Bounds> = Vec::new();
        let mut index: usize = 0;
        while index < len
            invariant
                index <= len == path@.len(),
                edges@.len() == index,
                forall|m: int| 0 <= m < index ==> #[trigger] edges@[m] == edge_box_at(path@, m),
            decreases len - index,
        {
            edges.push(edge_bounds(path[index], path[(index + 1) % len]));
            index += 1;
        }
        let check = |first: usize, second: usize| -> (answer: Option<()>)
            requires
                first < path@.len(),
                second < path@.len(),
            ensures
                answer is Some <==> edge_pair_ok(path@, first as int, second as int),
            { certify_edge_pair(path.as_slice(), first, second) };
        match visit_pairs(edges.as_slice(), &check) {
            None => {
                proof {
                    let (i, j) = choose|i: usize, j: usize|
                        i < j < edges@.len() && boxes_touch(edges@[i as int], edges@[j as int])
                            && #[trigger] check.ensures((i, j), None);
                    assert(!edge_pair_ok(path@, i as int, j as int));
                    assert(!ring_certified(paths@[k as int]@));
                }
                return None;
            },
            Some(()) => {
                proof {
                    assert forall|i: int, j: int|
                        0 <= i < j < path@.len() && boxes_touch(
                            edge_box_at(path@, i),
                            edge_box_at(path@, j),
                        ) implies #[trigger] edge_pair_ok(path@, i, j) by {
                        assert(edges@[i] == edge_box_at(path@, i));
                        assert(edges@[j] == edge_box_at(path@, j));
                        assert(check.ensures((i as usize, j as usize), Some(())));
                    }
                }
            },
        }
        k += 1;
    }
    Some(())
}
} // verus!
