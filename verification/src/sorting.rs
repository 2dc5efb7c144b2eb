//! Stable in-place sorting of index lists by a caller's ordering.

use vstd::prelude::*;

verus! {

/// Sorts `indices` (all below `bound`) with a stable insertion sort, where
/// `before(i, j)` says that index `i` must precede index `j`.
///
/// The result is a permutation of the input that keeps every index below
/// `bound`. Where `order` is what `before` computes and is asymmetric, no
/// adjacent pair of the result is out of `order`.
pub fn sort_indices_by<F: Fn(usize, usize) -> bool>(
    indices: &mut Vec<usize>,
    bound: usize,
    before: &F,
    Ghost(order): Ghost<spec_fn(usize, usize) -> bool>,
)
    requires
        forall|i: usize, j: usize| i < bound && j < bound ==> before.requires((i, j)),
        forall|k: int| 0 <= k < old(indices)@.len() ==> #[trigger] old(indices)@[k] < bound,
    ensures
        final(indices)@.len() == old(indices)@.len(),
        final(indices)@.to_multiset() == old(indices)@.to_multiset(),
        forall|k: int| 0 <= k < final(indices)@.len() ==> #[trigger] final(indices)@[k] < bound,
        distinct_indices(old(indices)@) ==> distinct_indices(final(indices)@),
        decides(*before, order, bound) ==> adjacent_in_order(final(indices)@, order),
{
    let len = indices.len();
    let mut sorted: usize = 1;
    if len < 2 {
        return;
    }
    while sorted < len
        invariant
            forall|i: usize, j: usize| i < bound && j < bound ==> before.requires((i, j)),
            indices@.len() == len,
            1 <= sorted <= len,
            indices@.to_multiset() == old(indices)@.to_multiset(),
            forall|k: int| 0 <= k < indices@.len() ==> #[trigger] indices@[k] < bound,
            distinct_indices(old(indices)@) ==> distinct_indices(indices@),
            decides(*before, order, bound) ==> adjacent_in_order(indices@.take(sorted as int), order),
        decreases len - sorted,
    {
        let ghost original = indices@;
        let ghost current_index = original[sorted as int];
        let mut position = sorted;
        while position > 0
            invariant
                forall|i: usize, j: usize| i < bound && j < bound ==> before.requires((i, j)),
                indices@.len() == len,
                position <= sorted < len,
                indices@.to_multiset() == old(indices)@.to_multiset(),
                forall|k: int| 0 <= k < indices@.len() ==> #[trigger] indices@[k] < bound,
                distinct_indices(old(indices)@) ==> distinct_indices(indices@),
                original.len() == len,
                current_index == original[sorted as int],
                forall|k: int| 0 <= k < original.len() ==> #[trigger] original[k] < bound,
                decides(*before, order, bound) ==> adjacent_in_order(original.take(sorted as int), order),
                indices@ == inserted_at(original, sorted as int, position as int),
                decides(*before, order, bound) && position < sorted ==> order(current_index, original[position as int]),
            ensures
                decides(*before, order, bound) && position > 0 ==> !order(current_index, original[position - 1]),
            decreases position,
        {
            let current = indices[position];
            let previous = indices[position - 1];
            proof {
                assert(current == current_index);
                assert(previous == original[position - 1]);
            }
            let earlier = before(current, previous);
            proof {
                if decides(*before, order, bound) {
                    assert(earlier == order(current, previous));
                }
            }
            if !earlier {
                break;
            }
            let ghost prior = indices@;
            indices.set(position, previous);
            indices.set(position - 1, current);
            proof {
                assert(indices@ =~= prior.update(position as int, previous).update(
                    position - 1,
                    current,
                ));
                lemma_swap_multiset(prior, position as int - 1, position as int);
                if distinct_indices(prior) {
                    lemma_swap_distinct(prior, position as int - 1, position as int);
                }
                assert(indices@ =~= inserted_at(original, sorted as int, position - 1));
            }
            position -= 1;
        }
        proof {
            if decides(*before, order, bound) {
                lemma_inserted_in_order(original, sorted as int, position as int, order, bound);
            }
            assert(indices@.take(sorted + 1) =~= inserted_at(original, sorted as int, position as int).take(sorted + 1));
        }
        sorted += 1;
    }
    proof {
        assert(indices@.take(len as int) =~= indices@);
    }
}

/// `order` is what `before` computes on indices below `bound`, and no two
/// indices precede each other.
pub open spec fn decides<F: Fn(usize, usize) -> bool>(
    before: F,
    order: spec_fn(usize, usize) -> bool,
    bound: usize,
) -> bool {
    &&& forall|i: usize, j: usize, r: bool|
        i < bound && j < bound && #[trigger] before.ensures((i, j), r) ==> r == order(i, j)
    &&& forall|i: usize, j: usize| i < bound && j < bound && #[trigger] order(i, j) ==> !order(j, i)
}

/// The empty relation, for callers that need no order of the result: the
/// sort then promises only a permutation.
pub open spec fn no_order() -> spec_fn(usize, usize) -> bool {
    |i: usize, j: usize| false
}

/// No later index of the sequence must come before the one just ahead of it.
pub open spec fn adjacent_in_order(indices: Seq<usize>, order: spec_fn(usize, usize) -> bool) -> bool {
    forall|k: int| 0 < k < indices.len() ==> !order(#[trigger] indices[k], indices[k - 1])
}

/// `original` with its element at `from` moved to `to` (`to <= from`), the
/// elements between shifted up by one.
pub open spec fn inserted_at(original: Seq<usize>, from: int, to: int) -> Seq<usize> {
    original.take(to).push(original[from]) + original.subrange(to, from) + original.skip(from + 1)
}

/// Inserting the next element where the insertion stopped keeps the prefix
/// in order.
proof fn lemma_inserted_in_order(
    original: Seq<usize>,
    sorted: int,
    position: int,
    order: spec_fn(usize, usize) -> bool,
    bound: usize,
)
    requires
        0 <= position <= sorted < original.len(),
        forall|k: int| 0 <= k < original.len() ==> #[trigger] original[k] < bound,
        forall|i: usize, j: usize| i < bound && j < bound && #[trigger] order(i, j) ==> !order(j, i),
        adjacent_in_order(original.take(sorted), order),
        position < sorted ==> order(original[sorted], original[position]),
        position > 0 ==> !order(original[sorted], original[position - 1]),
    ensures
        adjacent_in_order(inserted_at(original, sorted, position).take(sorted + 1), order),
{
    let result = inserted_at(original, sorted, position);
    let prefix = result.take(sorted + 1);
    assert forall|k: int| 0 < k < prefix.len() implies !order(#[trigger] prefix[k], prefix[k - 1]) by {
        assert(prefix[k] == result[k] && prefix[k - 1] == result[k - 1]);
        if k < position {
            assert(result[k] == original[k] && result[k - 1] == original[k - 1]);
            assert(original.take(sorted)[k] == original[k]);
        } else if k == position {
            assert(result[k] == original[sorted] && result[k - 1] == original[k - 1]);
        } else if k == position + 1 {
            assert(result[k] == original[position] && result[k - 1] == original[sorted]);
        } else {
            assert(result[k] == original[k - 1] && result[k - 1] == original[k - 2]);
            assert(original.take(sorted)[k - 1] == original[k - 1]);
        }
    }
}

/// No index occurs twice.
pub open spec fn distinct_indices(indices: Seq<usize>) -> bool {
    forall|a: int, b: int| 0 <= a < indices.len() && 0 <= b < indices.len() && a != b ==> #[trigger] indices[a]
        != #[trigger] indices[b]
}

proof fn lemma_swap_distinct(s: Seq<usize>, i: int, j: int)
    requires
        0 <= i < s.len(),
        0 <= j < s.len(),
        distinct_indices(s),
    ensures
        distinct_indices(s.update(j, s[i]).update(i, s[j])),
{
    let t = s.update(j, s[i]).update(i, s[j]);
    assert forall|a: int, b: int| 0 <= a < t.len() && 0 <= b < t.len() && a != b implies #[trigger] t[a]
        != #[trigger] t[b] by {
        let aa = if a == i {
            j
        } else if a == j {
            i
        } else {
            a
        };
        let bb = if b == i {
            j
        } else if b == j {
            i
        } else {
            b
        };
        assert(t[a] == s[aa]);
        assert(t[b] == s[bb]);
    }
}

pub proof fn lemma_swap_multiset<A>(s: Seq<A>, i: int, j: int)
    requires
        0 <= i < s.len(),
        0 <= j < s.len(),
    ensures
        s.update(j, s[i]).update(i, s[j]).to_multiset() == s.to_multiset(),
{
    broadcast use vstd::seq_lib::group_to_multiset_ensures;
    let t = s.update(j, s[i]);
    assert(t.to_multiset() == s.to_multiset().remove(s[j]).insert(s[i]));
    let u = t.update(i, s[j]);
    assert(u.to_multiset() == t.to_multiset().remove(t[i]).insert(s[j]));
    if i == j {
        assert(u =~= s);
    } else {
        assert(t[i] == s[i]);
    }
}

} // verus!
