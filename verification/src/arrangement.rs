//! Segment splitting, path predicates and ring utilities of the exact
//! arrangement kernel.

use vstd::prelude::*;

use crate::exact::{
    ExactPoint, QPoint, cross_vectors, point_on_segment_exact, points_wf, paths_wf, q_between, qp_cross, qp_on_segment,
    qp_same, qp_sub,
};
use crate::rational::{Q, Rational, q_add, q_div, q_less, q_mul, q_same, q_sub};
use crate::sorting::{adjacent_in_order, decides, distinct_indices, sort_indices_by};

verus! {

/// The smaller of two rational pairs (the first when equal).
pub open spec fn q_min(a: Q, b: Q) -> Q {
    if q_less(b, a) {
        b
    } else {
        a
    }
}

/// The larger of two rational pairs (the first when equal).
pub open spec fn q_max(a: Q, b: Q) -> Q {
    if q_less(a, b) {
        b
    } else {
        a
    }
}

/// An edge with its bounding box.
pub struct Edge {
    /// First endpoint.
    pub start: ExactPoint,
    /// Second endpoint.
    pub end: ExactPoint,
    /// Smallest `x` of the endpoints.
    pub min_x: Rational,
    /// Largest `x` of the endpoints.
    pub max_x: Rational,
    /// Smallest `y` of the endpoints.
    pub min_y: Rational,
    /// Largest `y` of the endpoints.
    pub max_y: Rational,
}

impl Edge {
    /// All coordinates are well-formed.
    pub open spec fn wf(self) -> bool {
        &&& self.start.wf()
        &&& self.end.wf()
        &&& self.min_x.wf()
        &&& self.max_x.wf()
        &&& self.min_y.wf()
        &&& self.max_y.wf()
        &&& self.qbox() == segment_qbox(self.start.qp(), self.end.qp())
    }

    /// The box fields as rational pairs: `(min_x, min_y, max_x, max_y)`.
    pub open spec fn qbox(self) -> QBox {
        (self.min_x.q(), self.min_y.q(), self.max_x.q(), self.max_y.q())
    }

    /// The endpoints are distinct.
    pub open spec fn proper(self) -> bool {
        !qp_same(self.start.qp(), self.end.qp())
    }

    /// Builds an edge and its bounding box.
    pub fn new(start: ExactPoint, end: ExactPoint) -> (edge: Self)
        requires
            start.wf(),
            end.wf(),
        ensures
            edge.wf(),
            edge.start.qp() == start.qp(),
            edge.end.qp() == end.qp(),
            edge.min_x.q() == q_min(start.x.q(), end.x.q()),
            edge.max_x.q() == q_max(start.x.q(), end.x.q()),
            edge.min_y.q() == q_min(start.y.q(), end.y.q()),
            edge.max_y.q() == q_max(start.y.q(), end.y.q()),
    {
        let min_x = start.x.min(&end.x);
        let max_x = start.x.max(&end.x);
        let min_y = start.y.min(&end.y);
        let max_y = start.y.max(&end.y);
        Edge { start, end, min_x, max_x, min_y, max_y }
    }
}

/// The bounding box of the segment from `start` to `end`.
pub open spec fn segment_qbox(start: QPoint, end: QPoint) -> QBox {
    (q_min(start.0, end.0), q_min(start.1, end.1), q_max(start.0, end.0), q_max(start.1, end.1))
}

/// Whether `0 <= t <= 1`, for a pair with a positive denominator.
pub open spec fn q_unit(t: Q) -> bool {
    0 <= t.0 <= t.1
}

/// Whether `t` is `0` or `1`, for a pair with a positive denominator.
pub open spec fn q_end_parameter(t: Q) -> bool {
    t.0 == 0 || t.0 == t.1
}

/// Whether the segment `b0 b1` lies on the line through `a0 a1`.
pub open spec fn segments_on_one_line(a0: QPoint, a1: QPoint, b0: QPoint, b1: QPoint) -> bool {
    &&& qp_cross(qp_sub(a1, a0), qp_sub(b1, b0)).0 == 0
    &&& qp_cross(qp_sub(b0, a0), qp_sub(a1, a0)).0 == 0
}

/// Where the lines of two non-parallel segments cross: the parameter along
/// the first segment and the parameter along the second.
pub open spec fn crossing_parameters(a0: QPoint, a1: QPoint, b0: QPoint, b1: QPoint) -> (Q, Q) {
    let denominator = qp_cross(qp_sub(a1, a0), qp_sub(b1, b0));
    let between = qp_sub(b0, a0);
    (q_div(qp_cross(between, qp_sub(b1, b0)), denominator), q_div(qp_cross(between, qp_sub(a1, a0)), denominator))
}

/// Whether two non-parallel segments with touching boxes cross within both
/// segments.
pub open spec fn segments_cross(a0: QPoint, a1: QPoint, b0: QPoint, b1: QPoint) -> bool {
    let (t, u) = crossing_parameters(a0, a1, b0, b1);
    &&& qbox_touch(segment_qbox(a0, a1), segment_qbox(b0, b1))
    &&& qp_cross(qp_sub(a1, a0), qp_sub(b1, b0)).0 != 0
    &&& q_unit(t)
    &&& q_unit(u)
}

/// Whether two segments touch other than at a shared endpoint: they lie on
/// one line, or they cross where at least one of them is not at an endpoint.
pub open spec fn segments_intersect(a0: QPoint, a1: QPoint, b0: QPoint, b1: QPoint) -> bool {
    let (t, u) = crossing_parameters(a0, a1, b0, b1);
    ||| segments_on_one_line(a0, a1, b0, b1)
    ||| segments_cross(a0, a1, b0, b1) && !(q_end_parameter(t) && q_end_parameter(u))
}

/// Whether an endpoint `p` or `q` of one segment lies on the segment
/// `a0 a1` at a parameter that `params` does not hold yet.
pub open spec fn collinear_growth(params: Seq<Rational>, p: QPoint, q: QPoint, a0: QPoint, a1: QPoint) -> bool {
    ||| qp_on_segment(p, a0, a1) && !q_present(params, segment_parameter(p, a0, a1))
    ||| qp_on_segment(q, a0, a1) && !q_present(params, segment_parameter(q, a0, a1))
}

/// The ring identity behind distinct parameters giving distinct points.
proof fn lemma_shift_identity(a: int, aa: int, p: int, pp: int, m: int, mm: int, n: int, nn: int)
    ensures
        (a * (pp * mm) + (p * m) * aa) * (aa * (pp * nn)) - (a * (pp * nn) + (p * n) * aa) * (aa * (pp * mm)) == p * (
        aa * aa * pp) * (m * nn - n * mm),
{
    let x = pp * mm;
    let y = pp * nn;
    let k = aa * aa * pp;
    assert((a * x + (p * m) * aa) * (aa * y) == (a * x) * (aa * y) + ((p * m) * aa) * (aa * y)) by (nonlinear_arith);
    assert((a * y + (p * n) * aa) * (aa * x) == (a * y) * (aa * x) + ((p * n) * aa) * (aa * x)) by (nonlinear_arith);
    assert((a * x) * (aa * y) == (a * y) * (aa * x)) by (nonlinear_arith);
    assert(((p * m) * aa) * (aa * y) == p * k * (m * nn)) by (nonlinear_arith)
        requires
            y == pp * nn,
            k == aa * aa * pp,
    ;
    assert(((p * n) * aa) * (aa * x) == p * k * (n * mm)) by (nonlinear_arith)
        requires
            x == pp * mm,
            k == aa * aa * pp,
    ;
    assert(p * k * (m * nn) - p * k * (n * mm) == p * k * (m * nn - n * mm)) by (nonlinear_arith);
}

/// Moving along a coordinate by two different parameters gives the same
/// value only where the coordinate does not change.
proof fn lemma_distinct_parameters(start: Q, change: Q, t0: Q, t1: Q)
    requires
        start.1 > 0,
        change.1 > 0,
        t0.1 > 0,
        t1.1 > 0,
        q_less(t0, t1),
        q_same(q_add(start, q_mul(change, t0)), q_add(start, q_mul(change, t1))),
    ensures
        change.0 == 0,
{
    let (a, aa, p, pp, m, mm, n, nn) = (start.0, start.1, change.0, change.1, t0.0, t0.1, t1.0, t1.1);
    lemma_shift_identity(a, aa, p, pp, m, mm, n, nn);
    assert(p * (aa * aa * pp) * (m * nn - n * mm) == 0);
    assert(aa * aa * pp > 0) by (nonlinear_arith)
        requires
            aa > 0,
            pp > 0,
    ;
    assert(p == 0) by (nonlinear_arith)
        requires
            p * (aa * aa * pp) * (m * nn - n * mm) == 0,
            aa * aa * pp > 0,
            m * nn - n * mm < 0,
    ;
}

/// Distinct parameters on a proper segment give distinct points.
pub proof fn lemma_points_apart(start: ExactPoint, end: ExactPoint, t0: Q, t1: Q)
    requires
        start.wf(),
        end.wf(),
        !qp_same(start.qp(), end.qp()),
        t0.1 > 0,
        t1.1 > 0,
        q_less(t0, t1),
    ensures
        !qp_same(qp_point_at(start.qp(), end.qp(), t0), qp_point_at(start.qp(), end.qp(), t1)),
{
    let v = qp_sub(end.qp(), start.qp());
    assert(v.0.1 > 0 && v.1.1 > 0) by (nonlinear_arith)
        requires
            v.0.1 == end.x.den() * start.x.den(),
            v.1.1 == end.y.den() * start.y.den(),
            end.x.den() > 0,
            start.x.den() > 0,
            end.y.den() > 0,
            start.y.den() > 0,
    ;
    if qp_same(qp_point_at(start.qp(), end.qp(), t0), qp_point_at(start.qp(), end.qp(), t1)) {
        lemma_distinct_parameters(start.qp().0, v.0, t0, t1);
        lemma_distinct_parameters(start.qp().1, v.1, t0, t1);
    }
}

/// In a list whose neighbours rise strictly, every earlier value is smaller.
pub proof fn lemma_rising_values(values: Seq<Rational>, b: int, a: int)
    requires
        rationals_wf(values),
        forall|k: int| 0 < k < values.len() ==> (#[trigger] values[k - 1]).less(values[k]),
        0 <= b < a < values.len(),
    ensures
        values[b].less(values[a]),
    decreases a - b,
{
    assert(values[b].wf() && values[a].wf() && values[a - 1].wf());
    if b < a - 1 {
        lemma_rising_values(values, b, a - 1);
        lemma_rational_order_transitive(values[b], values[a - 1], values[a]);
    }
}

/// Order is kept when values are replaced by values of equal worth.
pub proof fn lemma_less_same(a: Rational, b: Rational, c: Rational, d: Rational)
    requires
        a.wf(),
        b.wf(),
        c.wf(),
        d.wf(),
        a.same(b),
        c.same(d),
        b.less(d),
    ensures
        a.less(c),
{
    lemma_rational_order_transitive(a, b, d);
    lemma_rational_order_transitive(a, d, c);
    lemma_rational_order_transitive(d, c, c);
}

/// Whether some rational of `values` denotes the number `t`.
pub open spec fn q_present(values: Seq<Rational>, t: Q) -> bool {
    exists|i: int| 0 <= i < values.len() && q_same((#[trigger] values[i]).q(), t)
}

/// The point `start + (end - start) * t`.
pub open spec fn qp_point_at(start: QPoint, end: QPoint, t: Q) -> QPoint {
    let vector = qp_sub(end, start);
    (q_add(start.0, q_mul(vector.0, t)), q_add(start.1, q_mul(vector.1, t)))
}

/// The point at parameter `t` along the segment from `start` to `end`.
pub fn point_at(start: &ExactPoint, end: &ExactPoint, t: &Rational) -> (point: ExactPoint)
    requires
        start.wf(),
        end.wf(),
        t.wf(),
    ensures
        point.wf(),
        point.qp() == qp_point_at(start.qp(), end.qp(), t.q()),
{
    let vector = end.sub(start);
    ExactPoint { x: start.x.add(&vector.x.mul(t)), y: start.y.add(&vector.y.mul(t)) }
}

/// Whether `0 <= value <= 1`.
pub fn is_unit_interval(value: &Rational) -> (result: bool)
    requires
        value.wf(),
    ensures
        result == (value.num() >= 0 && value.num() <= value.den()),
{
    let zero = Rational::zero();
    let one = Rational::one();
    let result = zero.le(value) && value.le(&one);
    proof {
        assert(zero.num() * value.den() == 0) by (nonlinear_arith)
            requires
                zero.num() == 0,
        ;
        assert(one.num() * value.den() == value.den()) by (nonlinear_arith)
            requires
                one.num() == 1,
        ;
        assert(value.num() * one.den() == value.num()) by (nonlinear_arith)
            requires
                one.den() == 1,
        ;
        assert(value.num() * zero.den() == value.num()) by (nonlinear_arith)
            requires
                zero.den() == 1,
        ;
    }
    result
}

/// All rationals of the sequence are well-formed.
pub open spec fn rationals_wf(values: Seq<Rational>) -> bool {
    forall|i: int| 0 <= i < values.len() ==> (#[trigger] values[i]).wf()
}

/// Appends `value` unless an equal value is already present.
pub fn push_unique(values: &mut Vec<Rational>, value: Rational)
    requires
        rationals_wf(old(values)@),
        value.wf(),
    ensures
        rationals_wf(final(values)@),
        (exists|i: int| 0 <= i < old(values)@.len() && (#[trigger] old(values)@[i]).same(value)) ==> final(values)@
            == old(values)@,
        !(exists|i: int| 0 <= i < old(values)@.len() && (#[trigger] old(values)@[i]).same(value)) ==> final(values)@
            == old(values)@.push(value),
{
    let mut index: usize = 0;
    while index < values.len()
        invariant
            rationals_wf(values@),
            value.wf(),
            index <= values@.len(),
            values@ == old(values)@,
            forall|i: int| 0 <= i < index ==> !(#[trigger] values@[i]).same(value),
        decreases values@.len() - index,
    {
        if values[index].equals(&value) {
            return;
        }
        index += 1;
    }
    values.push(value);
}

/// The parameter of `point` along the segment from `start` to `end`,
/// measured on `x` unless the segment is vertical.
pub open spec fn segment_parameter(point: QPoint, start: QPoint, end: QPoint) -> Q {
    let vector = qp_sub(end, start);
    if vector.0.0 == 0 {
        q_div(q_sub(point.1, start.1), vector.1)
    } else {
        q_div(q_sub(point.0, start.0), vector.0)
    }
}

/// The parameter of a point known to lie on a proper segment.
pub fn parameter_on_segment(point: &ExactPoint, start: &ExactPoint, end: &ExactPoint) -> (t: Rational)
    requires
        point.wf(),
        start.wf(),
        end.wf(),
        !qp_same(start.qp(), end.qp()),
    ensures
        t.wf(),
        t.q() == segment_parameter(point.qp(), start.qp(), end.qp()),
        qp_on_segment(point.qp(), start.qp(), end.qp()) ==> q_unit(t.q()),
{
    let vector = end.sub(start);
    proof {
        if qp_on_segment(point.qp(), start.qp(), end.qp()) {
            if qp_sub(end.qp(), start.qp()).0.0 == 0 {
                lemma_proper_vector(start.qp(), end.qp());
                lemma_ratio_unit(point.y.q(), start.y.q(), end.y.q());
            } else {
                lemma_ratio_unit(point.x.q(), start.x.q(), end.x.q());
            }
        }
    }
    if vector.x.is_zero() {
        proof {
            lemma_proper_vector(start.qp(), end.qp());
        }
        point.y.sub(&start.y).div(&vector.y)
    } else {
        point.x.sub(&start.x).div(&vector.x)
    }
}

proof fn lemma_ratio_identity(p0: int, p1: int, s0: int, s1: int, e0: int, e1: int)
    ensures
        (p1 * s1) * (e0 * s1 - s0 * e1) - (p0 * s1 - s0 * p1) * (e1 * s1) == s1 * s1 * (e0 * p1 - p0 * e1),
{
    assert((p1 * s1) * (e0 * s1 - s0 * e1) == p1 * s1 * e0 * s1 - p1 * s1 * s0 * e1) by (nonlinear_arith);
    assert((p0 * s1 - s0 * p1) * (e1 * s1) == p0 * s1 * e1 * s1 - s0 * p1 * e1 * s1) by (nonlinear_arith);
    assert(s1 * s1 * (e0 * p1 - p0 * e1) == s1 * s1 * e0 * p1 - s1 * s1 * p0 * e1) by (nonlinear_arith);
    assert(p1 * s1 * e0 * s1 == s1 * s1 * e0 * p1) by (nonlinear_arith);
    assert(p1 * s1 * s0 * e1 == s0 * p1 * e1 * s1) by (nonlinear_arith);
    assert(p0 * s1 * e1 * s1 == s1 * s1 * p0 * e1) by (nonlinear_arith);
}

/// The parameter of a value between `s` and a different `e` lies in
/// `[0, 1]`.
proof fn lemma_ratio_unit(p: Q, s: Q, e: Q)
    requires
        p.1 > 0,
        s.1 > 0,
        e.1 > 0,
        q_between(p, s, e),
        q_sub(e, s).0 != 0,
    ensures
        q_unit(q_div(q_sub(p, s), q_sub(e, s))),
{
    let a = q_sub(p, s);
    let b = q_sub(e, s);
    lemma_ratio_identity(p.0, p.1, s.0, s.1, e.0, e.1);
    assert(s.1 * s.1 > 0) by (nonlinear_arith)
        requires
            s.1 > 0,
    ;
    assert(b.1 > 0 && a.1 > 0) by (nonlinear_arith)
        requires
            a.1 == p.1 * s.1,
            b.1 == e.1 * s.1,
            p.1 > 0,
            s.1 > 0,
            e.1 > 0,
    ;
    if b.0 > 0 {
        assert(a.0 >= 0 && e.0 * p.1 - p.0 * e.1 >= 0);
        assert(a.0 * b.1 >= 0) by (nonlinear_arith)
            requires
                a.0 >= 0,
                b.1 > 0,
        ;
        assert(s.1 * s.1 * (e.0 * p.1 - p.0 * e.1) >= 0) by (nonlinear_arith)
            requires
                s.1 * s.1 > 0,
                e.0 * p.1 - p.0 * e.1 >= 0,
        ;
    } else {
        assert(a.0 <= 0 && e.0 * p.1 - p.0 * e.1 <= 0);
        assert(a.0 * b.1 <= 0) by (nonlinear_arith)
            requires
                a.0 <= 0,
                b.1 > 0,
        ;
        assert(s.1 * s.1 * (e.0 * p.1 - p.0 * e.1) <= 0) by (nonlinear_arith)
            requires
                s.1 * s.1 > 0,
                e.0 * p.1 - p.0 * e.1 <= 0,
        ;
    }
}

proof fn lemma_proper_vector(start: QPoint, end: QPoint)
    requires
        start.0.1 > 0,
        start.1.1 > 0,
        end.0.1 > 0,
        end.1.1 > 0,
        !qp_same(start, end),
        qp_sub(end, start).0.0 == 0,
    ensures
        qp_sub(end, start).1.0 != 0,
{
    assert(end.0.0 * start.0.1 == start.0.0 * end.0.1);
    if qp_sub(end, start).1.0 == 0 {
        assert(end.1.0 * start.1.1 == start.1.0 * end.1.1);
    }
}

/// Records where two proper edges touch: the parameters of a proper crossing,
/// or of the endpoints that lie on the other edge when they are collinear.
pub fn split_edge_pair(
    first: &Edge,
    second: &Edge,
    first_params: &mut Vec<Rational>,
    second_params: &mut Vec<Rational>,
)
    requires
        first.wf(),
        second.wf(),
        first.proper(),
        second.proper(),
        rationals_wf(old(first_params)@),
        rationals_wf(old(second_params)@),
    ensures
        rationals_wf(final(first_params)@),
        rationals_wf(final(second_params)@),
        final(first_params)@.len() >= old(first_params)@.len(),
        final(second_params)@.len() >= old(second_params)@.len(),
        forall|i: int| 0 <= i < old(first_params)@.len() ==> #[trigger] final(first_params)@[i] == old(first_params)@[i],
        forall|i: int| 0 <= i < old(second_params)@.len() ==> #[trigger] final(second_params)@[i] == old(second_params)@[i],
        forall|i: int|
            old(first_params)@.len() <= i < final(first_params)@.len() ==> q_unit((#[trigger] final(first_params)@[i]).q()),
        forall|i: int|
            old(second_params)@.len() <= i < final(second_params)@.len() ==> q_unit((#[trigger] final(second_params)@[i]).q()),
        ({
            let (t, u) = crossing_parameters(first.start.qp(), first.end.qp(), second.start.qp(), second.end.qp());
            !segments_on_one_line(first.start.qp(), first.end.qp(), second.start.qp(), second.end.qp()) ==> {
                &&& final(first_params)@.len() > old(first_params)@.len() <==> segments_cross(
                    first.start.qp(),
                    first.end.qp(),
                    second.start.qp(),
                    second.end.qp(),
                ) && !q_present(old(first_params)@, t)
                &&& final(second_params)@.len() > old(second_params)@.len() <==> segments_cross(
                    first.start.qp(),
                    first.end.qp(),
                    second.start.qp(),
                    second.end.qp(),
                ) && !q_present(old(second_params)@, u)
            }
        }),
        segments_on_one_line(first.start.qp(), first.end.qp(), second.start.qp(), second.end.qp()) ==> {
            &&& final(first_params)@.len() > old(first_params)@.len() <==> qbox_touch(
                segment_qbox(first.start.qp(), first.end.qp()),
                segment_qbox(second.start.qp(), second.end.qp()),
            ) && collinear_growth(
                old(first_params)@,
                second.start.qp(),
                second.end.qp(),
                first.start.qp(),
                first.end.qp(),
            )
            &&& final(second_params)@.len() > old(second_params)@.len() <==> qbox_touch(
                segment_qbox(first.start.qp(), first.end.qp()),
                segment_qbox(second.start.qp(), second.end.qp()),
            ) && collinear_growth(
                old(second_params)@,
                first.start.qp(),
                first.end.qp(),
                second.start.qp(),
                second.end.qp(),
            )
        },
{
    if first.max_x.lt(&second.min_x) || second.max_x.lt(&first.min_x) || first.max_y.lt(&second.min_y)
        || second.max_y.lt(&first.min_y) {
        return;
    }
    let first_vector = first.end.sub(&first.start);
    let second_vector = second.end.sub(&second.start);
    let denominator = cross_vectors(&first_vector, &second_vector);
    let between = second.start.sub(&first.start);
    if !denominator.is_zero() {
        let first_t = cross_vectors(&between, &second_vector).div(&denominator);
        let second_t = cross_vectors(&between, &first_vector).div(&denominator);
        if is_unit_interval(&first_t) && is_unit_interval(&second_t) {
            push_unique(first_params, first_t);
            push_unique(second_params, second_t);
        }
    } else if cross_vectors(&between, &first_vector).is_zero() {
        if point_on_segment_exact(&second.start, &first.start, &first.end) {
            push_unique(first_params, parameter_on_segment(&second.start, &first.start, &first.end));
        }
        if point_on_segment_exact(&second.end, &first.start, &first.end) {
            push_unique(first_params, parameter_on_segment(&second.end, &first.start, &first.end));
        }
        if point_on_segment_exact(&first.start, &second.start, &second.end) {
            push_unique(second_params, parameter_on_segment(&first.start, &second.start, &second.end));
        }
        if point_on_segment_exact(&first.end, &second.start, &second.end) {
            push_unique(second_params, parameter_on_segment(&first.end, &second.start, &second.end));
        }
    }
}

/// The parameters `0` and `1`.
pub fn unit_endpoints() -> (values: Vec<Rational>)
    ensures
        rationals_wf(values@),
        values@.len() == 2,
        values@[0].q() == (0int, 1int),
        values@[1].q() == (1int, 1int),
{
    let mut values: Vec<Rational> = Vec::new();
    values.push(Rational::zero());
    values.push(Rational::one());
    values
}

/// Whether some rational of `values` is `value` itself.
pub open spec fn value_listed(values: Seq<Rational>, value: Rational) -> bool {
    exists|i: int| 0 <= i < values.len() && (#[trigger] values[i]).q() == value.q()
}

/// Whether some rational of `values` denotes the same number as `value`.
pub open spec fn value_present(values: Seq<Rational>, value: Rational) -> bool {
    exists|i: int| 0 <= i < values.len() && (#[trigger] values[i]).same(value)
}

/// Every index below `len` occurs in `order`.
pub proof fn lemma_order_covers(initial: Seq<usize>, order: Seq<usize>, len: int, i: int)
    requires
        initial.len() == len,
        forall|k: int| 0 <= k < len ==> #[trigger] initial[k] == k,
        order.to_multiset() == initial.to_multiset(),
        0 <= i < len,
    ensures
        exists|p: int| 0 <= p < order.len() && order[p] == i,
{
    broadcast use vstd::seq_lib::group_to_multiset_ensures;
    assert(initial[i] == i);
    assert(initial.contains(i as usize));
    assert(order.to_multiset().count(i as usize) > 0);
    assert(order.contains(i as usize));
}

/// Sorts rationals ascending and removes repeated values: every kept value
/// is one of the inputs, and every input value is kept once.
#[verifier::spinoff_prover]
pub fn sort_unique(values: &Vec<Rational>) -> (sorted: Vec<Rational>)
    requires
        rationals_wf(values@),
    ensures
        rationals_wf(sorted@),
        sorted@.len() <= values@.len(),
        values@.len() > 0 ==> sorted@.len() > 0,
        forall|k: int| 0 <= k < sorted@.len() ==> #[trigger] value_listed(values@, sorted@[k]),
        forall|i: int| 0 <= i < values@.len() ==> #[trigger] value_present(sorted@, values@[i]),
        forall|k: int| 0 < k < sorted@.len() ==> (#[trigger] sorted@[k - 1]).less(sorted@[k]),
{
    let len = values.len();
    let mut order: Vec<usize> = Vec::new();
    let mut index: usize = 0;
    while index < len
        invariant
            len == values@.len(),
            index <= len,
            order@.len() == index,
            forall|k: int| 0 <= k < order@.len() ==> #[trigger] order@[k] == k,
        decreases len - index,
    {
        order.push(index);
        index += 1;
    }
    let ghost initial = order@;
    let before = |i: usize, j: usize| -> (r: bool)
        requires
            i < values@.len(),
            j < values@.len(),
            rationals_wf(values@),
        ensures
            r == values@[i as int].less(values@[j as int]),
        { values[i].lt(&values[j]) };
    let ghost ascending = |i: usize, j: usize| values@[i as int].less(values@[j as int]);
    assert(decides(before, ascending, len));
    sort_indices_by(&mut order, len, &before, Ghost(ascending));
    let mut sorted: Vec<Rational> = Vec::new();
    let mut position: usize = 0;
    while position < len
        invariant
            len == values@.len(),
            order@.len() == len,
            forall|k: int| 0 <= k < order@.len() ==> #[trigger] order@[k] < len,
            rationals_wf(values@),
            rationals_wf(sorted@),
            position <= len,
            sorted@.len() <= position,
            position > 0 ==> sorted@.len() > 0,
            forall|k: int| 0 <= k < sorted@.len() ==> #[trigger] value_listed(values@, sorted@[k]),
            forall|p: int| 0 <= p < position ==> #[trigger] value_present(sorted@, values@[order@[p] as int]),
            adjacent_in_order(order@, ascending),
            forall|i: usize, j: usize| #[trigger] ascending(i, j) == values@[i as int].less(values@[j as int]),
            position > 0 ==> sorted@.last().same(values@[order@[position - 1] as int]),
            forall|k: int| 0 < k < sorted@.len() ==> (#[trigger] sorted@[k - 1]).less(sorted@[k]),
        decreases len - position,
    {
        let candidate = &values[order[position]];
        let slen = sorted.len();
        let ghost before_push = sorted@;
        if slen == 0 || !sorted[slen - 1].equals(candidate) {
            proof {
                if slen > 0 {
                    let previous = values@[order@[position - 1] as int];
                    assert(!ascending(order@[position as int], order@[position - 1]));
                    lemma_rational_order_transitive(sorted@[slen - 1], previous, *candidate);
                    assert(sorted@[slen - 1].less(*candidate));
                }
            }
            sorted.push(candidate.copy());
            proof {
                assert(sorted@[slen as int].same(values@[order@[position as int] as int]));
                assert forall|k: int| 0 < k < sorted@.len() implies (#[trigger] sorted@[k - 1]).less(sorted@[k]) by {
                    if k < slen {
                        assert(sorted@[k - 1] == before_push[k - 1] && sorted@[k] == before_push[k]);
                    } else {
                        assert(sorted@[k - 1] == before_push[k - 1]);
                        assert(sorted@[k].q() == candidate.q());
                    }
                }
                assert forall|k: int| 0 <= k < sorted@.len() implies #[trigger] value_listed(values@, sorted@[k]) by {
                    if k < slen {
                        assert(sorted@[k] == before_push[k]);
                    } else {
                        assert(values@[order@[position as int] as int].q() == sorted@[k].q());
                    }
                }
                assert forall|p: int| 0 <= p < position + 1 implies #[trigger] value_present(
                    sorted@,
                    values@[order@[p] as int],
                ) by {
                    if p < position {
                        assert(value_present(before_push, values@[order@[p] as int]));
                        let w = choose|w: int| 0 <= w < before_push.len() && (#[trigger] before_push[w]).same(
                            values@[order@[p] as int],
                        );
                        assert(sorted@[w] == before_push[w]);
                        assert(sorted@[w].same(values@[order@[p] as int]));
                    } else {
                        assert(sorted@[slen as int].same(values@[order@[p] as int]));
                    }
                }
            }
        } else {
            proof {
                assert(sorted@[slen - 1].same(values@[order@[position as int] as int]));
                assert(value_present(sorted@, values@[order@[position as int] as int]));
            }
        }
        position += 1;
    }
    proof {
        assert forall|i: int| 0 <= i < values@.len() implies #[trigger] value_present(sorted@, values@[i]) by {
            lemma_order_covers(initial, order@, len as int, i);
            let p = choose|p: int| 0 <= p < order@.len() && order@[p] == i;
            assert(value_present(sorted@, values@[order@[p] as int]));
        }
    }
    sorted
}

/// Whether two proper edges share any point: collinear edges that meet, or a
/// crossing found by the split of the pair.
pub fn edges_intersect(first: &Edge, second: &Edge) -> (result: bool)
    requires
        first.wf(),
        second.wf(),
        first.proper(),
        second.proper(),
    ensures
        result == segments_intersect(first.start.qp(), first.end.qp(), second.start.qp(), second.end.qp()),
{
    let first_vector = first.end.sub(&first.start);
    let second_vector = second.end.sub(&second.start);
    let between = second.start.sub(&first.start);
    if cross_vectors(&first_vector, &second_vector).is_zero() && cross_vectors(&between, &first_vector).is_zero() {
        return true;
    }
    let mut first_params = unit_endpoints();
    let mut second_params = unit_endpoints();
    let ghost initial = first_params@;
    split_edge_pair(first, second, &mut first_params, &mut second_params);
    proof {
        let (t, u) = crossing_parameters(first.start.qp(), first.end.qp(), second.start.qp(), second.end.qp());
        lemma_present_in_unit_endpoints(initial, t);
        lemma_present_in_unit_endpoints(initial, u);
    }
    first_params.len() > 2 || second_params.len() > 2
}

/// A number is among `0` and `1` exactly when it is an end parameter.
pub proof fn lemma_present_in_unit_endpoints(values: Seq<Rational>, t: Q)
    requires
        values.len() == 2,
        values[0].q() == (0int, 1int),
        values[1].q() == (1int, 1int),
    ensures
        q_present(values, t) <==> q_end_parameter(t),
{
    assert(q_same(values[0].q(), t) <==> t.0 == 0);
    assert(q_same(values[1].q(), t) <==> t.0 == t.1);
    if q_end_parameter(t) {
        if t.0 == 0 {
            assert(q_same(values[0].q(), t));
        } else {
            assert(q_same(values[1].q(), t));
        }
    }
}

/// Whether `edge` runs from point `i` of the closed path to the next point.
pub open spec fn edge_of_path(path: Seq<ExactPoint>, i: int, edge: Edge) -> bool {
    &&& edge.start.qp() == path[i].qp()
    &&& edge.end.qp() == path[if i + 1 == path.len() { 0 } else { i + 1 }].qp()
}

/// Whether `edge` runs between consecutive points of the closed path.
pub open spec fn edge_from_path(path: Seq<ExactPoint>, edge: Edge) -> bool {
    exists|i: int| 0 <= i < path.len() && #[trigger] edge_of_path(path, i, edge)
}

/// Whether some edge of the list runs from point `i` of the closed path.
pub open spec fn path_edge_listed(path: Seq<ExactPoint>, edges: Seq<Edge>, i: int) -> bool {
    exists|k: int| 0 <= k < edges.len() && #[trigger] edge_of_path(path, i, edges[k])
}

/// Whether points `i` and its successor of the closed path differ.
pub open spec fn proper_step(path: Seq<ExactPoint>, i: int) -> bool {
    !qp_same(path[i].qp(), path[if i + 1 == path.len() { 0 } else { i + 1 }].qp())
}

/// The indices below `n` of the points of a closed path from which a proper
/// edge leaves, in increasing order.
pub open spec fn proper_steps(path: Seq<ExactPoint>, n: int) -> Seq<int>
    decreases n,
{
    if n <= 0 {
        Seq::empty()
    } else {
        let previous = proper_steps(path, n - 1);
        if proper_step(path, n - 1) {
            previous.push(n - 1)
        } else {
            previous
        }
    }
}

/// The proper edges of a closed path (edges between equal points are
/// skipped).
pub fn path_edges(path: &Vec<ExactPoint>) -> (edges: Vec<Edge>)
    requires
        points_wf(path@),
    ensures
        forall|i: int| 0 <= i < edges@.len() ==> (#[trigger] edges@[i]).wf() && edges@[i].proper(),
        forall|k: int| 0 <= k < edges@.len() ==> #[trigger] edge_from_path(path@, edges@[k]),
        forall|i: int| 0 <= i < path@.len() && #[trigger] proper_step(path@, i) ==> path_edge_listed(path@, edges@, i),
        edges@.len() == proper_steps(path@, path@.len() as int).len(),
        forall|k: int|
            0 <= k < edges@.len() ==> edge_of_path(path@, proper_steps(path@, path@.len() as int)[k], #[trigger] edges@[k]),
{
    let len = path.len();
    let mut edges: Vec<Edge> = Vec::new();
    let mut index: usize = 0;
    while index < len
        invariant
            len == path@.len(),
            points_wf(path@),
            index <= len,
            forall|i: int| 0 <= i < edges@.len() ==> (#[trigger] edges@[i]).wf() && edges@[i].proper(),
            forall|k: int| 0 <= k < edges@.len() ==> #[trigger] edge_from_path(path@, edges@[k]),
            forall|i: int| 0 <= i < index && #[trigger] proper_step(path@, i) ==> path_edge_listed(path@, edges@, i),
            edges@.len() == proper_steps(path@, index as int).len(),
            forall|k: int|
                0 <= k < edges@.len() ==> edge_of_path(path@, proper_steps(path@, index as int)[k], #[trigger] edges@[k]),
        decreases len - index,
    {
        let next = if index + 1 == len {
            0
        } else {
            index + 1
        };
        proof {
            assert(path@[index as int].wf());
            assert(path@[next as int].wf());
        }
        let ghost before = edges@;
        if !path[index].equals(&path[next]) {
            edges.push(Edge::new(path[index].copy(), path[next].copy()));
            proof {
                assert(edge_of_path(path@, index as int, edges@[before.len() as int]));
                assert(proper_step(path@, index as int));
                assert(proper_steps(path@, index + 1) == proper_steps(path@, index as int).push(index as int));
                assert forall|k: int| 0 <= k < edges@.len() implies edge_of_path(
                    path@,
                    proper_steps(path@, index + 1)[k],
                    #[trigger] edges@[k],
                ) by {
                    if k < before.len() {
                        assert(edges@[k] == before[k]);
                    }
                }
                assert forall|k: int| 0 <= k < edges@.len() implies #[trigger] edge_from_path(path@, edges@[k]) by {
                    if k < before.len() {
                        assert(edges@[k] == before[k]);
                        assert(edge_from_path(path@, before[k]));
                    }
                }
                assert forall|i: int| 0 <= i < index + 1 && #[trigger] proper_step(path@, i) implies path_edge_listed(
                    path@,
                    edges@,
                    i,
                ) by {
                    if i < index {
                        assert(path_edge_listed(path@, before, i));
                        let k = choose|k: int| 0 <= k < before.len() && #[trigger] edge_of_path(path@, i, before[k]);
                        assert(edges@[k] == before[k]);
                    }
                }
            }
        } else {
            proof {
                assert(!proper_step(path@, index as int));
                assert(proper_steps(path@, index + 1) == proper_steps(path@, index as int));
            }
        }
        index += 1;
    }
    edges
}

/// A box of rational pairs `(min_x, min_y, max_x, max_y)`.
pub type QBox = (Q, Q, Q, Q);

/// The smallest box containing both boxes.
pub open spec fn qbox_union(a: QBox, b: QBox) -> QBox {
    (q_min(a.0, b.0), q_min(a.1, b.1), q_max(a.2, b.2), q_max(a.3, b.3))
}

/// Whether two closed boxes share a point.
pub open spec fn qbox_touch(a: QBox, b: QBox) -> bool {
    !(q_less(a.2, b.0) || q_less(b.2, a.0) || q_less(a.3, b.1) || q_less(b.3, a.1))
}

/// The box of the first `n` points of a nonempty path.
pub open spec fn path_qbox(path: Seq<ExactPoint>, n: nat) -> QBox
    decreases n,
{
    if n <= 1 {
        (path[0].x.q(), path[0].y.q(), path[0].x.q(), path[0].y.q())
    } else {
        let previous = path_qbox(path, (n - 1) as nat);
        let point = path[n - 1];
        (q_min(previous.0, point.x.q()), q_min(previous.1, point.y.q()), q_max(previous.2, point.x.q()), q_max(
            previous.3,
            point.y.q(),
        ))
    }
}

/// The box of the nonempty paths among the first `n`, if any.
pub open spec fn paths_qbox(paths: Seq<Vec<ExactPoint>>, n: nat) -> Option<QBox>
    decreases n,
{
    if n == 0 {
        None
    } else {
        let previous = paths_qbox(paths, (n - 1) as nat);
        let path = paths[n - 1]@;
        if path.len() == 0 {
            previous
        } else {
            match previous {
                None => Some(path_qbox(path, path.len())),
                Some(current) => Some(qbox_union(current, path_qbox(path, path.len()))),
            }
        }
    }
}

/// A bounding box `(min_x, min_y, max_x, max_y)`.
pub struct Bounds {
    /// Smallest `x`.
    pub min_x: Rational,
    /// Smallest `y`.
    pub min_y: Rational,
    /// Largest `x`.
    pub max_x: Rational,
    /// Largest `y`.
    pub max_y: Rational,
}

impl Bounds {
    /// All four bounds are well-formed.
    pub open spec fn wf(self) -> bool {
        self.min_x.wf() && self.min_y.wf() && self.max_x.wf() && self.max_y.wf()
    }

    /// The four bounds as rational pairs: `(min_x, min_y, max_x, max_y)`.
    pub open spec fn q(self) -> QBox {
        (self.min_x.q(), self.min_y.q(), self.max_x.q(), self.max_y.q())
    }

    /// The smallest box containing both boxes.
    pub fn union(&self, other: &Bounds) -> (result: Bounds)
        requires
            self.wf(),
            other.wf(),
        ensures
            result.wf(),
            result.q() == qbox_union(self.q(), other.q()),
    {
        Bounds {
            min_x: self.min_x.min(&other.min_x),
            min_y: self.min_y.min(&other.min_y),
            max_x: self.max_x.max(&other.max_x),
            max_y: self.max_y.max(&other.max_y),
        }
    }

    /// Whether two closed boxes share a point.
    pub fn touches(&self, other: &Bounds) -> (result: bool)
        requires
            self.wf(),
            other.wf(),
        ensures
            result == qbox_touch(self.q(), other.q()),
    {
        !(self.max_x.lt(&other.min_x) || other.max_x.lt(&self.min_x) || self.max_y.lt(&other.min_y)
            || other.max_y.lt(&self.min_y))
    }
}

/// The bounding box of a path, or `None` when it is empty.
pub fn path_bbox(path: &Vec<ExactPoint>) -> (result: Option<Bounds>)
    requires
        points_wf(path@),
    ensures
        result is Some <==> path@.len() > 0,
        result matches Some(bounds) ==> bounds.wf() && bounds.q() == path_qbox(path@, path@.len()),
{
    if path.len() == 0 {
        return None;
    }
    proof {
        assert(path@[0].wf());
    }
    let mut bounds = Bounds {
        min_x: path[0].x.copy(),
        min_y: path[0].y.copy(),
        max_x: path[0].x.copy(),
        max_y: path[0].y.copy(),
    };
    let mut index: usize = 1;
    while index < path.len()
        invariant
            points_wf(path@),
            1 <= index <= path@.len(),
            bounds.wf(),
            bounds.q() == path_qbox(path@, index as nat),
        decreases path@.len() - index,
    {
        proof {
            assert(path@[index as int].wf());
        }
        let point = &path[index];
        bounds = Bounds {
            min_x: bounds.min_x.min(&point.x),
            min_y: bounds.min_y.min(&point.y),
            max_x: bounds.max_x.max(&point.x),
            max_y: bounds.max_y.max(&point.y),
        };
        index += 1;
    }
    Some(bounds)
}

/// The bounding box of all non-empty paths, or `None` when all are empty.
pub fn paths_bbox(paths: &[Vec<ExactPoint>]) -> (result: Option<Bounds>)
    requires
        paths_wf(paths@),
    ensures
        result matches Some(bounds) ==> bounds.wf(),
        result is Some <==> paths_qbox(paths@, paths@.len()) is Some,
        result matches Some(bounds) ==> paths_qbox(paths@, paths@.len()) == Some(bounds.q()),
{
    let mut result: Option<Bounds> = None;
    let mut index: usize = 0;
    while index < paths.len()
        invariant
            paths_wf(paths@),
            index <= paths@.len(),
            result matches Some(bounds) ==> bounds.wf(),
            result is Some <==> paths_qbox(paths@, index as nat) is Some,
            result matches Some(bounds) ==> paths_qbox(paths@, index as nat) == Some(bounds.q()),
        decreases paths@.len() - index,
    {
        proof {
            assert(points_wf(paths@[index as int]@));
        }
        match path_bbox(&paths[index]) {
            None => {},
            Some(next) => {
                result = match result {
                    None => Some(next),
                    Some(current) => Some(current.union(&next)),
                };
            },
        }
        index += 1;
    }
    result
}

/// The shoelace term of edge `i` of a closed exact path.
pub open spec fn q_area_term(path: Seq<ExactPoint>, i: int) -> Q {
    let start = path[i];
    let end = path[if i + 1 == path.len() { 0 } else { i + 1 }];
    q_sub(q_mul(start.x.q(), end.y.q()), q_mul(start.y.q(), end.x.q()))
}

/// The sum of the first `n` shoelace terms, added in order from zero.
pub open spec fn q_area_prefix(path: Seq<ExactPoint>, n: nat) -> Q
    decreases n,
{
    if n == 0 {
        (0, 1)
    } else {
        q_add(q_area_prefix(path, (n - 1) as nat), q_area_term(path, n - 1))
    }
}

/// Twice the signed area of an exact ring.
pub fn exact_area2(path: &Vec<ExactPoint>) -> (area: Rational)
    requires
        points_wf(path@),
    ensures
        area.wf(),
        area.q() == q_area_prefix(path@, path@.len()),
{
    let len = path.len();
    let mut area = Rational::zero();
    let mut index: usize = 0;
    while index < len
        invariant
            len == path@.len(),
            points_wf(path@),
            index <= len,
            area.wf(),
            area.q() == q_area_prefix(path@, index as nat),
        decreases len - index,
    {
        let next = if index + 1 == len {
            0
        } else {
            index + 1
        };
        proof {
            assert(path@[index as int].wf());
            assert(path@[next as int].wf());
        }
        let start = &path[index];
        let end = &path[next];
        area = area.add(&start.x.mul(&end.y).sub(&start.y.mul(&end.x)));
        index += 1;
    }
    area
}

/// Whether `rotated` is `ring` read from position `start` on, wrapping, point
/// for point.
pub open spec fn is_rotation(rotated: Seq<ExactPoint>, ring: Seq<ExactPoint>, start: int) -> bool {
    &&& 0 <= start < ring.len()
    &&& rotated.len() == ring.len()
    &&& forall|k: int| 0 <= k < ring.len() ==> (#[trigger] rotated[k]).qp() == ring[(start + k) % (ring.len() as int)].qp()
}

/// `b.den * (a - c) == c.den * (a - b) + a.den * (b - c)`, each difference
/// cross-multiplied.
proof fn lemma_difference_identity(an: int, ad: int, bn: int, bd: int, cn: int, cd: int)
    ensures
        bd * (an * cd - cn * ad) == cd * (an * bd - bn * ad) + ad * (bn * cd - cn * bd),
{
    assert(bd * (an * cd - cn * ad) == cd * (an * bd - bn * ad) + ad * (bn * cd - cn * bd)) by (nonlinear_arith);
}

/// The order of rationals is transitive.
proof fn lemma_rational_order_transitive(a: Rational, b: Rational, c: Rational)
    requires
        a.wf(),
        b.wf(),
        c.wf(),
    ensures
        a.compare_spec(b) <= 0 && b.compare_spec(c) <= 0 ==> a.compare_spec(c) <= 0,
        a.compare_spec(b) == 0 && b.compare_spec(c) == 0 ==> a.compare_spec(c) == 0,
        a.compare_spec(b) < 0 && b.compare_spec(c) <= 0 ==> a.compare_spec(c) < 0,
        a.compare_spec(b) <= 0 && b.compare_spec(c) < 0 ==> a.compare_spec(c) < 0,
        a.compare_spec(b) == -b.compare_spec(a),
{
    let (an, ad, bn, bd, cn, cd) = (a.num(), a.den(), b.num(), b.den(), c.num(), c.den());
    lemma_difference_identity(an, ad, bn, bd, cn, cd);
    let ab = an * bd - bn * ad;
    let bc = bn * cd - cn * bd;
    let ac = an * cd - cn * ad;
    assert(ab <= 0 && bc <= 0 ==> ac <= 0) by (nonlinear_arith)
        requires
            bd * ac == cd * ab + ad * bc,
            ad > 0,
            bd > 0,
            cd > 0,
    ;
    assert(ab == 0 && bc == 0 ==> ac == 0) by (nonlinear_arith)
        requires
            bd * ac == cd * ab + ad * bc,
            bd > 0,
    ;
    assert((ab < 0 && bc <= 0) || (ab <= 0 && bc < 0) ==> ac < 0) by (nonlinear_arith)
        requires
            bd * ac == cd * ab + ad * bc,
            ad > 0,
            bd > 0,
            cd > 0,
    ;
}

/// The lexicographic order of points is transitive.
proof fn lemma_point_order_transitive(a: ExactPoint, b: ExactPoint, c: ExactPoint)
    requires
        a.wf(),
        b.wf(),
        c.wf(),
    ensures
        point_order(a, b) <= 0 && point_order(b, c) <= 0 ==> point_order(a, c) <= 0,
        point_order(a, b) == -point_order(b, a),
{
    lemma_rational_order_transitive(a.x, b.x, c.x);
    lemma_rational_order_transitive(a.y, b.y, c.y);
}

/// No point of the ring comes before its first point in lexicographic order.
pub open spec fn starts_at_smallest(ring: Seq<ExactPoint>) -> bool {
    forall|k: int| 0 <= k < ring.len() ==> point_order(ring[0], #[trigger] ring[k]) <= 0
}

/// The lexicographic order of points is a total preorder whose ties are
/// the points of equal value.
pub proof fn lemma_point_order_chain(a: ExactPoint, b: ExactPoint, c: ExactPoint)
    requires
        a.wf(),
        b.wf(),
        c.wf(),
    ensures
        point_order(a, b) <= 0 && point_order(b, c) <= 0 ==> point_order(a, c) <= 0,
        point_order(a, b) < 0 && point_order(b, c) <= 0 ==> point_order(a, c) < 0,
        point_order(a, b) <= 0 && point_order(b, c) < 0 ==> point_order(a, c) < 0,
        point_order(a, b) == 0 ==> point_order(a, c) == point_order(b, c),
        point_order(a, b) == -point_order(b, a),
        point_order(a, b) == 0 <==> qp_same(a.qp(), b.qp()),
{
    lemma_rational_order_transitive(a.x, b.x, c.x);
    lemma_rational_order_transitive(a.y, b.y, c.y);
    lemma_rational_order_transitive(c.x, b.x, a.x);
    lemma_rational_order_transitive(c.y, b.y, a.y);
}

/// Rotates a ring so that its lexicographically smallest point comes first.
pub fn canonicalize_ring(ring: Vec<ExactPoint>) -> (rotated: Vec<ExactPoint>)
    requires
        points_wf(ring@),
    ensures
        points_wf(rotated@),
        rotated@.len() == ring@.len(),
        ring@.len() > 0 ==> exists|start: int| #[trigger] is_rotation(rotated@, ring@, start),
        ring@.len() > 0 ==> forall|k: int| 0 <= k < ring@.len() ==> point_order(rotated@[0], #[trigger] ring@[k]) <= 0,
        starts_at_smallest(rotated@),
{
    let len = ring.len();
    if len == 0 {
        return ring;
    }
    let mut minimum: usize = 0;
    let mut index: usize = 1;
    proof {
        assert(ring@[0].wf());
        lemma_point_order_transitive(ring@[0], ring@[0], ring@[0]);
    }
    while index < len
        invariant
            len == ring@.len(),
            points_wf(ring@),
            1 <= index <= len,
            minimum < len,
            forall|k: int| 0 <= k < index ==> point_order(ring@[minimum as int], #[trigger] ring@[k]) <= 0,
        decreases len - index,
    {
        proof {
            assert(ring@[index as int].wf());
            assert(ring@[minimum as int].wf());
        }
        let ghost previous = minimum as int;
        if ring[index].compare(&ring[minimum]) < 0 {
            minimum = index;
            proof {
                assert forall|k: int| 0 <= k < index + 1 implies point_order(
                    ring@[minimum as int],
                    #[trigger] ring@[k],
                ) <= 0 by {
                    assert(ring@[k].wf());
                    lemma_point_order_transitive(ring@[minimum as int], ring@[previous], ring@[k]);
                    lemma_point_order_transitive(ring@[k], ring@[k], ring@[k]);
                }
            }
        } else {
            proof {
                lemma_point_order_transitive(ring@[index as int], ring@[minimum as int], ring@[index as int]);
            }
        }
        index += 1;
    }
    let mut rotated: Vec<ExactPoint> = Vec::new();
    let mut step: usize = 0;
    while step < len
        invariant
            len == ring@.len(),
            points_wf(ring@),
            minimum < len,
            step <= len,
            rotated@.len() == step,
            points_wf(rotated@),
            forall|k: int| 0 <= k < step ==> (#[trigger] rotated@[k]).qp() == ring@[(minimum + k) % (len as int)].qp(),
            forall|k: int| 0 <= k < len ==> point_order(ring@[minimum as int], #[trigger] ring@[k]) <= 0,
            forall|k: int| 0 <= k < step ==> point_order(ring@[minimum as int], #[trigger] rotated@[k]) <= 0,
        decreases len - step,
    {
        let source = if step < len - minimum {
            minimum + step
        } else {
            step - (len - minimum)
        };
        proof {
            assert(ring@[source as int].wf());
            if step < len - minimum {
                assert((minimum + step) % (len as int) == minimum + step) by {
                    vstd::arithmetic::div_mod::lemma_small_mod((minimum + step) as nat, len as nat);
                }
            } else {
                assert((minimum + step) % (len as int) == step - (len - minimum)) by {
                    vstd::arithmetic::div_mod::lemma_mod_add_multiples_vanish((step - (len - minimum)) as int, len as int);
                    vstd::arithmetic::div_mod::lemma_small_mod((step - (len - minimum)) as nat, len as nat);
                }
            }
        }
        let ghost before = rotated@;
        rotated.push(ring[source].copy());
        proof {
            assert(point_order(ring@[minimum as int], ring@[source as int]) <= 0);
            assert forall|k: int| 0 <= k < step + 1 implies point_order(ring@[minimum as int], #[trigger] rotated@[k])
                <= 0 by {
                if k < step {
                    assert(rotated@[k] == before[k]);
                }
            }
        }
        step += 1;
    }
    assert(is_rotation(rotated@, ring@, minimum as int));
    proof {
        vstd::arithmetic::div_mod::lemma_small_mod(minimum as nat, len as nat);
        assert(rotated@[0].qp() == ring@[minimum as int].qp());
        assert forall|k: int| 0 <= k < ring@.len() implies point_order(rotated@[0], #[trigger] ring@[k]) <= 0 by {
            assert(point_order(ring@[minimum as int], ring@[k]) <= 0);
        }
    }
    rotated
}

/// Reverses an exact path.
pub fn reverse_exact(path: &Vec<ExactPoint>) -> (reversed: Vec<ExactPoint>)
    requires
        points_wf(path@),
    ensures
        points_wf(reversed@),
        reversed@.len() == path@.len(),
        forall|i: int| 0 <= i < path@.len() ==> (#[trigger] reversed@[i]).qp() == path@[path@.len() - 1 - i].qp(),
{
    let len = path.len();
    let mut reversed: Vec<ExactPoint> = Vec::new();
    let mut index: usize = 0;
    while index < len
        invariant
            len == path@.len(),
            points_wf(path@),
            index <= len,
            reversed@.len() == index,
            points_wf(reversed@),
            forall|i: int| 0 <= i < index ==> (#[trigger] reversed@[i]).qp() == path@[len - 1 - i].qp(),
        decreases len - index,
    {
        proof {
            assert(path@[len - 1 - index].wf());
        }
        reversed.push(path[len - 1 - index].copy());
        index += 1;
    }
    reversed
}

/// The lexicographic order of two points, by `x` then `y`: -1, 0 or 1.
pub open spec fn point_order(a: ExactPoint, b: ExactPoint) -> int {
    if a.x.compare_spec(b.x) != 0 {
        a.x.compare_spec(b.x)
    } else {
        a.y.compare_spec(b.y)
    }
}

/// The lexicographic order of two paths from position `i` on: the first
/// differing point decides, then the length.
pub open spec fn path_order(left: Seq<ExactPoint>, right: Seq<ExactPoint>, i: int) -> int
    decreases left.len() - i,
{
    if 0 <= i < left.len() && i < right.len() {
        if point_order(left[i], right[i]) != 0 {
            point_order(left[i], right[i])
        } else {
            path_order(left, right, i + 1)
        }
    } else {
        crate::geometry::sign(left.len() - right.len())
    }
}

/// Lexicographic comparison of two exact paths (points, then length):
/// -1, 0 or 1.
pub fn compare_paths(left: &Vec<ExactPoint>, right: &Vec<ExactPoint>) -> (result: i8)
    requires
        points_wf(left@),
        points_wf(right@),
    ensures
        -1 <= result <= 1,
        result == path_order(left@, right@, 0),
{
    let mut index: usize = 0;
    while index < left.len() && index < right.len()
        invariant
            points_wf(left@),
            points_wf(right@),
            index <= left@.len(),
            index <= right@.len(),
            path_order(left@, right@, 0) == path_order(left@, right@, index as int),
        decreases left@.len() - index,
    {
        proof {
            assert(left@[index as int].wf());
            assert(right@[index as int].wf());
        }
        let order = left[index].compare(&right[index]);
        if order != 0 {
            return order;
        }
        index += 1;
    }
    if left.len() < right.len() {
        -1
    } else if left.len() > right.len() {
        1
    } else {
        0
    }
}

/// Swapping the paths negates their lexicographic order.
proof fn lemma_path_order_antisymmetric(a: Seq<ExactPoint>, b: Seq<ExactPoint>, i: int)
    requires
        points_wf(a),
        points_wf(b),
        0 <= i,
    ensures
        path_order(a, b, i) == -path_order(b, a, i),
    decreases a.len() - i,
{
    if i < a.len() && i < b.len() {
        lemma_point_order_transitive(a[i], b[i], b[i]);
        lemma_path_order_antisymmetric(a, b, i + 1);
    }
}

/// The lexicographic order depends only on the values of the points.
proof fn lemma_path_order_same(a: Seq<ExactPoint>, c: Seq<ExactPoint>, b: Seq<ExactPoint>, d: Seq<ExactPoint>, i: int)
    requires
        same_path(a, c),
        same_path(b, d),
        0 <= i,
    ensures
        path_order(a, b, i) == path_order(c, d, i),
    decreases a.len() - i,
{
    if i < a.len() && i < b.len() {
        assert(a[i].qp() == c[i].qp() && b[i].qp() == d[i].qp());
        lemma_path_order_same(a, c, b, d, i + 1);
    }
}

/// Whether two exact paths have the same points in the same order.
pub open spec fn same_path(a: Seq<ExactPoint>, b: Seq<ExactPoint>) -> bool {
    a.len() == b.len() && forall|i: int| 0 <= i < a.len() ==> (#[trigger] a[i]).qp() == b[i].qp()
}

/// Whether `sorted` holds the paths of `paths` rearranged by the
/// permutation `perm`: position `k` holds path `perm[k]`.
pub open spec fn permutes(sorted: Seq<Vec<ExactPoint>>, paths: Seq<Vec<ExactPoint>>, perm: Seq<usize>) -> bool {
    &&& perm.len() == paths.len()
    &&& sorted.len() == paths.len()
    &&& forall|k: int| 0 <= k < perm.len() ==> #[trigger] perm[k] < paths.len()
    &&& distinct_indices(perm)
    &&& forall|k: int| 0 <= k < sorted.len() ==> same_path(#[trigger] sorted[k]@, paths[perm[k] as int]@)
}

/// Sorts exact paths lexicographically; the result holds the same paths.
#[verifier::spinoff_prover]
pub fn sort_paths(paths: Vec<Vec<ExactPoint>>, min_len: usize) -> (sorted: Vec<Vec<ExactPoint>>)
    requires
        paths_wf(paths@),
        forall|i: int| 0 <= i < paths@.len() ==> (#[trigger] paths@[i])@.len() >= min_len,
    ensures
        paths_wf(sorted@),
        sorted@.len() == paths@.len(),
        forall|i: int| 0 <= i < sorted@.len() ==> (#[trigger] sorted@[i])@.len() >= min_len,
        exists|perm: Seq<usize>| #[trigger] permutes(sorted@, paths@, perm),
        forall|k: int| 0 < k < sorted@.len() ==> path_order(#[trigger] sorted@[k - 1]@, sorted@[k]@, 0) <= 0,
{
    let len = paths.len();
    let mut order: Vec<usize> = Vec::new();
    let mut index: usize = 0;
    while index < len
        invariant
            len == paths@.len(),
            index <= len,
            order@.len() == index,
            forall|k: int| 0 <= k < order@.len() ==> #[trigger] order@[k] == k,
        decreases len - index,
    {
        order.push(index);
        index += 1;
    }
    assert(distinct_indices(order@));
    let before = |i: usize, j: usize| -> (r: bool)
        requires
            i < paths@.len(),
            j < paths@.len(),
            paths_wf(paths@),
        ensures
            r == (path_order(paths@[i as int]@, paths@[j as int]@, 0) < 0),
        { compare_paths(&paths[i], &paths[j]) < 0 };
    let ghost ascending = |i: usize, j: usize| path_order(paths@[i as int]@, paths@[j as int]@, 0) < 0;
    assert forall|i: usize, j: usize| i < len && j < len && #[trigger] ascending(i, j) implies !ascending(j, i) by {
        lemma_path_order_antisymmetric(paths@[i as int]@, paths@[j as int]@, 0);
    }
    assert(decides(before, ascending, len));
    sort_indices_by(&mut order, len, &before, Ghost(ascending));
    let mut sorted: Vec<Vec<ExactPoint>> = Vec::new();
    let mut position: usize = 0;
    while position < len
        invariant
            len == paths@.len(),
            order@.len() == len,
            forall|k: int| 0 <= k < order@.len() ==> #[trigger] order@[k] < len,
            paths_wf(paths@),
            position <= len,
            sorted@.len() == position,
            paths_wf(sorted@),
            forall|i: int| 0 <= i < paths@.len() ==> (#[trigger] paths@[i])@.len() >= min_len,
            forall|i: int| 0 <= i < sorted@.len() ==> (#[trigger] sorted@[i])@.len() >= min_len,
            forall|k: int| 0 <= k < position ==> same_path(#[trigger] sorted@[k]@, paths@[order@[k] as int]@),
        decreases len - position,
    {
        proof {
            assert(points_wf(paths@[order@[position as int] as int]@));
            assert(paths@[order@[position as int] as int]@.len() >= min_len);
        }
        sorted.push(copy_path(&paths[order[position]]));
        position += 1;
    }
    assert(permutes(sorted@, paths@, order@));
    assert forall|k: int| 0 < k < sorted@.len() implies path_order(#[trigger] sorted@[k - 1]@, sorted@[k]@, 0) <= 0 by {
        let earlier = paths@[order@[k - 1] as int]@;
        let later = paths@[order@[k] as int]@;
        assert(!ascending(order@[k], order@[k - 1]));
        lemma_path_order_antisymmetric(later, earlier, 0);
        lemma_path_order_same(sorted@[k - 1]@, earlier, sorted@[k]@, later, 0);
    }
    sorted
}

/// An equal copy of an exact path.
pub fn copy_path(path: &Vec<ExactPoint>) -> (copied: Vec<ExactPoint>)
    requires
        points_wf(path@),
    ensures
        points_wf(copied@),
        copied@.len() == path@.len(),
        forall|i: int| 0 <= i < path@.len() ==> (#[trigger] copied@[i]).qp() == path@[i].qp(),
{
    let mut copied: Vec<ExactPoint> = Vec::new();
    let mut index: usize = 0;
    while index < path.len()
        invariant
            points_wf(path@),
            index <= path@.len(),
            copied@.len() == index,
            points_wf(copied@),
            forall|i: int| 0 <= i < index ==> (#[trigger] copied@[i]).qp() == path@[i].qp(),
        decreases path@.len() - index,
    {
        proof {
            assert(path@[index as int].wf());
        }
        copied.push(path[index].copy());
        index += 1;
    }
    copied
}

} // verus!
