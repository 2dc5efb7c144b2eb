//! The exact signed area of a ring does not depend on the point where the
//! ring starts.

use vstd::prelude::*;

use crate::arrangement::{is_rotation, q_area_prefix, q_area_term};
use crate::exact::{ExactPoint, lemma_q_same_transitive, points_wf};
use crate::rational::{Q, q_add, q_same};

verus! {

/// Twice the signed area of the ring is not zero.
pub open spec fn has_area(ring: Seq<ExactPoint>) -> bool {
    q_area_prefix(ring, ring.len()).0 != 0
}

/// The shoelace terms of a ring, one per edge.
pub open spec fn q_area_terms(path: Seq<ExactPoint>) -> Seq<Q> {
    Seq::new(path.len(), |i: int| q_area_term(path, i))
}

/// The sum of rational pairs, added in order from zero.
pub open spec fn q_sum(terms: Seq<Q>) -> Q
    decreases terms.len(),
{
    if terms.len() == 0 {
        (0, 1)
    } else {
        q_add(q_sum(terms.drop_last()), terms.last())
    }
}

/// Every pair has a positive denominator.
pub open spec fn dens_positive(terms: Seq<Q>) -> bool {
    forall|i: int| 0 <= i < terms.len() ==> (#[trigger] terms[i]).1 > 0
}

/// The area prefix is the sum of the first `n` shoelace terms.
proof fn lemma_area_prefix_sum(path: Seq<ExactPoint>, n: nat)
    requires
        n <= path.len(),
    ensures
        q_area_prefix(path, n) == q_sum(q_area_terms(path).take(n as int)),
    decreases n,
{
    if n > 0 {
        lemma_area_prefix_sum(path, (n - 1) as nat);
        assert(q_area_terms(path).take(n as int).drop_last() =~= q_area_terms(path).take(n - 1));
    }
}

/// A sum of pairs with positive denominators has a positive denominator.
proof fn lemma_sum_positive(terms: Seq<Q>)
    requires
        dens_positive(terms),
    ensures
        q_sum(terms).1 > 0,
    decreases terms.len(),
{
    if terms.len() > 0 {
        let rest = terms.drop_last();
        assert(dens_positive(rest)) by {
            assert forall|i: int| 0 <= i < rest.len() implies (#[trigger] rest[i]).1 > 0 by {
                assert(rest[i] == terms[i]);
            }
        }
        lemma_sum_positive(rest);
        let (s, l) = (q_sum(rest).1, terms.last().1);
        assert(s * l > 0) by (nonlinear_arith)
            requires
                s > 0,
                l > 0,
        ;
    }
}

/// Adding the same pair to equal pairs gives equal pairs.
proof fn lemma_add_congruent(a: Q, b: Q, c: Q)
    requires
        q_same(a, b),
    ensures
        q_same(q_add(a, c), q_add(b, c)),
{
    lemma_congruence_identity(a.0, a.1, b.0, b.1, c.0, c.1);
}

/// The ring identity behind the congruence of pair addition.
proof fn lemma_congruence_identity(a0: int, a1: int, b0: int, b1: int, c0: int, c1: int)
    requires
        a0 * b1 == b0 * a1,
    ensures
        (a0 * c1 + c0 * a1) * (b1 * c1) == (b0 * c1 + c0 * b1) * (a1 * c1),
{
    vstd::arithmetic::mul::lemma_mul_is_distributive_add_other_way(b1 * c1, a0 * c1, c0 * a1);
    vstd::arithmetic::mul::lemma_mul_is_distributive_add_other_way(a1 * c1, b0 * c1, c0 * b1);
    assert((a0 * c1) * (b1 * c1) == (a0 * b1) * (c1 * c1)) by (nonlinear_arith);
    assert((b0 * c1) * (a1 * c1) == (b0 * a1) * (c1 * c1)) by (nonlinear_arith);
    assert((c0 * a1) * (b1 * c1) == (c0 * b1) * (a1 * c1)) by (nonlinear_arith);
}

/// The ring identity behind the associativity of pair addition.
proof fn lemma_add_associative_identity(a0: int, a1: int, b0: int, b1: int, c0: int, c1: int)
    ensures
        (a0 * b1 + b0 * a1) * c1 + c0 * (a1 * b1) == a0 * (b1 * c1) + (b0 * c1 + c0 * b1) * a1,
        (a1 * b1) * c1 == a1 * (b1 * c1),
{
    vstd::arithmetic::mul::lemma_mul_is_distributive_add_other_way(c1, a0 * b1, b0 * a1);
    vstd::arithmetic::mul::lemma_mul_is_distributive_add_other_way(a1, b0 * c1, c0 * b1);
    vstd::arithmetic::mul::lemma_mul_is_associative(a0, b1, c1);
    vstd::arithmetic::mul::lemma_mul_is_associative(b0, a1, c1);
    vstd::arithmetic::mul::lemma_mul_is_associative(b0, c1, a1);
    vstd::arithmetic::mul::lemma_mul_is_associative(c0, a1, b1);
    vstd::arithmetic::mul::lemma_mul_is_associative(c0, b1, a1);
    vstd::arithmetic::mul::lemma_mul_is_associative(a1, b1, c1);
    vstd::arithmetic::mul::lemma_mul_is_commutative(a1, c1);
    vstd::arithmetic::mul::lemma_mul_is_commutative(a1, b1);
}

/// Addition of pairs is associative and commutative, and zero is neutral.
proof fn lemma_add_laws(a: Q, b: Q, c: Q)
    ensures
        q_add(q_add(a, b), c) == q_add(a, q_add(b, c)),
        q_add(a, b) == q_add(b, a),
        q_add(a, (0, 1)) == a,
{
    lemma_add_associative_identity(a.0, a.1, b.0, b.1, c.0, c.1);
    vstd::arithmetic::mul::lemma_mul_is_commutative(a.1, b.1);
}

/// The sum of a concatenation equals the sum of the two sums.
proof fn lemma_sum_concat(a: Seq<Q>, b: Seq<Q>)
    ensures
        q_same(q_sum(a + b), q_add(q_sum(a), q_sum(b))),
    decreases b.len(),
{
    if b.len() == 0 {
        assert(a + b =~= a);
        lemma_add_laws(q_sum(a), q_sum(a), q_sum(a));
    } else {
        let rest = b.drop_last();
        assert((a + b).drop_last() =~= a + rest);
        assert((a + b).last() == b.last());
        lemma_sum_concat(a, rest);
        lemma_add_congruent(q_sum(a + rest), q_add(q_sum(a), q_sum(rest)), b.last());
        lemma_add_laws(q_sum(a), q_sum(rest), b.last());
    }
}

/// Summing a rotation of the pairs gives an equal pair.
proof fn lemma_sum_rotated(terms: Seq<Q>, s: int)
    requires
        0 <= s <= terms.len(),
        dens_positive(terms),
    ensures
        q_same(q_sum(terms.skip(s) + terms.take(s)), q_sum(terms)),
{
    let (head, tail) = (terms.take(s), terms.skip(s));
    assert(dens_positive(head)) by {
        assert forall|i: int| 0 <= i < head.len() implies (#[trigger] head[i]).1 > 0 by {
            assert(head[i] == terms[i]);
        }
    }
    assert(dens_positive(tail)) by {
        assert forall|i: int| 0 <= i < tail.len() implies (#[trigger] tail[i]).1 > 0 by {
            assert(tail[i] == terms[s + i]);
        }
    }
    lemma_sum_positive(head);
    lemma_sum_positive(tail);
    lemma_sum_concat(tail, head);
    lemma_sum_concat(head, tail);
    lemma_add_laws(q_sum(tail), q_sum(head), q_sum(head));
    assert(head + tail =~= terms);
    let middle = q_add(q_sum(head), q_sum(tail));
    let (h, t) = (q_sum(head).1, q_sum(tail).1);
    assert(h * t > 0) by (nonlinear_arith)
        requires
            h > 0,
            t > 0,
    ;
    lemma_q_same_transitive(q_sum(tail + head), middle, q_sum(terms));
}

/// The shoelace terms of a ring with well-formed points have positive
/// denominators.
proof fn lemma_terms_positive(path: Seq<ExactPoint>)
    requires
        points_wf(path),
    ensures
        dens_positive(q_area_terms(path)),
{
    let terms = q_area_terms(path);
    assert forall|i: int| 0 <= i < terms.len() implies (#[trigger] terms[i]).1 > 0 by {
        let start = path[i];
        let end = path[if i + 1 == path.len() { 0 } else { i + 1 }];
        assert(start.wf() && end.wf());
        let (a, b, c, d) = (start.x.den(), end.y.den(), start.y.den(), end.x.den());
        assert((a * b) * (c * d) > 0) by (nonlinear_arith)
            requires
                a > 0,
                b > 0,
                c > 0,
                d > 0,
        ;
    }
}

/// `(a + b) % n` for `0 <= a, b < n`.
proof fn lemma_mod_sum(a: int, b: int, n: int)
    requires
        0 <= a < n,
        0 <= b < n,
    ensures
        (a + b) % n == (if a + b < n { a + b } else { a + b - n }),
{
    if a + b < n {
        vstd::arithmetic::div_mod::lemma_small_mod((a + b) as nat, n as nat);
    } else {
        vstd::arithmetic::div_mod::lemma_small_mod((a + b - n) as nat, n as nat);
        vstd::arithmetic::div_mod::lemma_mod_add_multiples_vanish(a + b - n, n);
    }
}

/// A ring whose points equal those of a ring with area, in the same order,
/// has area.
pub proof fn lemma_same_points_area(copy: Seq<ExactPoint>, ring: Seq<ExactPoint>)
    requires
        points_wf(ring),
        ring.len() > 0,
        copy.len() == ring.len(),
        forall|k: int| 0 <= k < ring.len() ==> (#[trigger] copy[k]).qp() == ring[k].qp(),
        has_area(ring),
    ensures
        has_area(copy),
{
    assert forall|k: int| 0 <= k < ring.len() implies (#[trigger] copy[k]).qp() == ring[(0 + k) % (ring.len() as int)].qp() by {
        vstd::arithmetic::div_mod::lemma_small_mod(k as nat, ring.len());
    }
    lemma_rotation_area(copy, ring, 0);
}

/// Twice the signed area of a rotation of a ring equals that of the ring.
pub proof fn lemma_rotation_area(rotated: Seq<ExactPoint>, ring: Seq<ExactPoint>, start: int)
    requires
        points_wf(ring),
        is_rotation(rotated, ring, start),
    ensures
        q_same(q_area_prefix(rotated, rotated.len()), q_area_prefix(ring, ring.len())),
        q_area_prefix(ring, ring.len()).1 > 0,
        q_area_prefix(rotated, rotated.len()).1 > 0,
        q_area_prefix(rotated, rotated.len()).0 == 0 <==> q_area_prefix(ring, ring.len()).0 == 0,
{
    let n = ring.len() as int;
    let terms = q_area_terms(ring);
    let shifted = terms.skip(start) + terms.take(start);
    assert forall|i: int| 0 <= i < n implies #[trigger] q_area_terms(rotated)[i] == shifted[i] by {
        let next = if i + 1 == n { 0 } else { i + 1 };
        lemma_mod_sum(start, i, n);
        lemma_mod_sum(start, next, n);
        let k = (start + i) % n;
        let k_next = if k + 1 == n { 0 } else { k + 1 };
        assert((start + next) % n == k_next);
        assert(rotated[i].qp() == ring[k].qp());
        assert(rotated[next].qp() == ring[k_next].qp());
        if i < n - start {
            assert(shifted[i] == terms[start + i]);
        } else {
            assert(shifted[i] == terms[i - (n - start)]);
        }
    }
    assert(q_area_terms(rotated) =~= shifted);
    lemma_terms_positive(ring);
    lemma_sum_rotated(terms, start);
    lemma_area_prefix_sum(ring, n as nat);
    lemma_area_prefix_sum(rotated, n as nat);
    assert(terms.take(n) =~= terms);
    assert(q_area_terms(rotated).take(n) =~= q_area_terms(rotated));
    lemma_sum_positive(terms);
    assert(dens_positive(shifted)) by {
        assert forall|i: int| 0 <= i < shifted.len() implies (#[trigger] shifted[i]).1 > 0 by {
            if i < n - start {
                assert(shifted[i] == terms[start + i]);
            } else {
                assert(shifted[i] == terms[i - (n - start)]);
            }
        }
    }
    lemma_sum_positive(shifted);
    let (x, y) = (q_area_prefix(rotated, rotated.len()), q_area_prefix(ring, ring.len()));
    assert(x.0 == 0 <==> y.0 == 0) by (nonlinear_arith)
        requires
            x.0 * y.1 == y.0 * x.1,
            x.1 > 0,
            y.1 > 0,
    ;
}

} // verus!
