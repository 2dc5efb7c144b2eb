//! Integer clipping of open polylines, certified with checked `i128`
//! arithmetic. Any overflow, non-integral crossing or ambiguity returns
//! `None` so that the caller falls back to the exact rational clipper.

use vstd::prelude::*;

use crate::geometry::{Point64, fits_i128, normalize_path64, normalize_spec};
use crate::open_exact::{boundary_run_keep, boundary_run_keep_spec};
use crate::request::{ClipType, FillRule, views};
use crate::sorting::{adjacent_in_order, decides, sort_indices_by};
use crate::winding::{winding_contains, winding_contains_spec};
use crate::vertex_origin::{
    lemma_at_segment64, lemma_on_segment64, line64_along_input, line64_on_open_path, lines64_on_open_paths,
    on_open_path64, on_segment64,
};
use crate::PathKind;

verus! {

/// The vector from `a` to `b` with `i128` components.
pub fn vector64(a: Point64, b: Point64) -> (v: (i128, i128))
    ensures
        v.0 == b.x - a.x,
        v.1 == b.y - a.y,
{
    ((b.x as i128) - (a.x as i128), (b.y as i128) - (a.y as i128))
}

/// The cross product of two vectors, or `None` when it leaves `i128`.
pub fn cross64(u: (i128, i128), v: (i128, i128)) -> (result: Option<i128>)
    ensures
        result is Some <==> (fits_i128(u.0 * v.1) && fits_i128(u.1 * v.0) && fits_i128(u.0 * v.1 - u.1 * v.0)),
        result matches Some(value) ==> value == u.0 * v.1 - u.1 * v.0,
{
    let left = match u.0.checked_mul(v.1) {
        Some(value) => value,
        None => return None,
    };
    let right = match u.1.checked_mul(v.0) {
        Some(value) => value,
        None => return None,
    };
    left.checked_sub(right)
}

/// Whether `numerator / denominator` lies in `[0, 1]`.
pub fn ratio_in_unit_interval(numerator: i128, denominator: i128) -> (result: bool)
    requires
        denominator != 0,
    ensures
        denominator > 0 ==> result == (0 <= numerator <= denominator),
        denominator < 0 ==> result == (denominator <= numerator <= 0),
{
    if denominator > 0 {
        0 <= numerator && numerator <= denominator
    } else {
        denominator <= numerator && numerator <= 0
    }
}

/// Whether `point` lies on the closed segment `start -> end`, or `None`
/// when the collinearity test overflows.
pub fn point_on_segment64(point: Point64, start: Point64, end: Point64) -> (result: Option<bool>)
    ensures
        result matches Some(on) ==> on == crate::geometry::on_segment_spec(point, start, end),
        result is None <==> !(fits_i128((point.x - start.x) * (end.y - start.y)) && fits_i128(
            (point.y - start.y) * (end.x - start.x),
        ) && fits_i128((point.x - start.x) * (end.y - start.y) - (point.y - start.y) * (end.x - start.x))),
{
    let cross = match cross64(vector64(start, point), vector64(start, end)) {
        Some(value) => value,
        None => return None,
    };
    proof {
        assert(crate::geometry::cross_value(start, end, point) == -((point.x - start.x) * (end.y - start.y) - (point.y - start.y) * (end.x - start.x))) by (nonlinear_arith);
    }
    if cross != 0 {
        return Some(false);
    }
    let x_in = if start.x <= end.x {
        start.x <= point.x && point.x <= end.x
    } else {
        end.x <= point.x && point.x <= start.x
    };
    let y_in = if start.y <= end.y {
        start.y <= point.y && point.y <= end.y
    } else {
        end.y <= point.y && point.y <= start.y
    };
    Some(x_in && y_in)
}

fn magnitude(value: i128) -> (result: u128)
    requires
        value > i128::MIN,
    ensures
        result == (if value < 0 { -(value as int) } else { value as int }),
{
    if value < 0 {
        (-value) as u128
    } else {
        value as u128
    }
}

/// `numerator / denominator` when the division is exact, otherwise `None`.
pub fn divide_exact(numerator: i128, denominator: i128) -> (result: Option<i128>)
    requires
        denominator != 0,
    ensures
        result matches Some(q) ==> q * denominator == numerator,
        result is None <==> (numerator == i128::MIN || denominator == i128::MIN || (if numerator < 0 {
            -numerator
        } else {
            numerator as int
        }) % (if denominator < 0 {
            -denominator
        } else {
            denominator as int
        }) != 0),
{
    if numerator == i128::MIN || denominator == i128::MIN {
        return None;
    }
    let n = magnitude(numerator);
    let d = magnitude(denominator);
    if n % d != 0 {
        return None;
    }
    let q = n / d;
    proof {
        vstd::arithmetic::div_mod::lemma_fundamental_div_mod(n as int, d as int);
        assert(q <= n) by (nonlinear_arith)
            requires
                q == n / d,
                d >= 1,
                n >= 0,
        ;
    }
    let quotient = q as i128;
    let negative = (numerator < 0) != (denominator < 0);
    let result = if negative {
        -quotient
    } else {
        quotient
    };
    proof {
        assert(q * d == n) by (nonlinear_arith)
            requires
                n == d * (n / d) + n % d,
                n % d == 0,
                q == n / d,
        ;
        assert(result * denominator == numerator) by (nonlinear_arith)
            requires
                q * d == n,
                n == (if numerator < 0 { -numerator } else { numerator as int }),
                d == (if denominator < 0 { -denominator } else { denominator as int }),
                result == (if (numerator < 0) != (denominator < 0) { -q } else { q as int }),
        ;
    }
    Some(result)
}

fn push_unique_point(points: &mut Vec<Point64>, point: Point64)
    ensures
        final(points)@.len() >= old(points)@.len(),
        forall|i: int| 0 <= i < old(points)@.len() ==> #[trigger] final(points)@[i] == old(points)@[i],
        final(points)@.contains(point),
        final(points)@ == old(points)@ || final(points)@ == old(points)@.push(point),
{
    let mut index: usize = 0;
    while index < points.len()
        invariant
            index <= points@.len(),
        decreases points@.len() - index,
    {
        if points[index] == point {
            proof {
                assert(points@[index as int] == point);
            }
            return;
        }
        index += 1;
    }
    points.push(point);
    proof {
        assert(points@[points@.len() - 1] == point);
    }
}

/// Adds to `points` where segment `second` meets segment `first`: the
/// endpoints of a collinear `second` that lie on `first`, or their crossing
/// point. `false` when the arithmetic overflows or the crossing is not an
/// integer point.
/// The cross product `u x v`.
pub open spec fn cross_of(u: (int, int), v: (int, int)) -> int {
    u.0 * v.1 - u.1 * v.0
}

/// The cross product `u x v` and its two products fit in `i128`.
pub open spec fn cross_fits(u: (int, int), v: (int, int)) -> bool {
    fits_i128(u.0 * v.1) && fits_i128(u.1 * v.0) && fits_i128(u.0 * v.1 - u.1 * v.0)
}

/// `numerator / denominator` lies in `[0, 1]`.
pub open spec fn unit_ratio(numerator: int, denominator: int) -> bool {
    if denominator > 0 {
        0 <= numerator <= denominator
    } else {
        denominator <= numerator <= 0
    }
}

/// Neither value is `i128::MIN`, some integer step `q` solves
/// `q * denominator == numerator`, and it moves `origin` to a point that
/// fits in `i64`.
pub open spec fn integral_step(origin: int, numerator: int, denominator: int) -> bool {
    &&& numerator != i128::MIN
    &&& denominator != i128::MIN
    &&& exists|q: int| q * denominator == numerator && i64::MIN <= #[trigger] (origin + q) <= i64::MAX
}

/// A multiple of `d` leaves no remainder by `|d|`.
proof fn lemma_multiple_divides(q: int, d: int)
    requires
        d != 0,
    ensures
        (if q * d < 0 { -(q * d) } else { q * d }) % (if d < 0 { -d } else { d }) == 0,
{
    let ad = if d < 0 { -d } else { d };
    let aq = if q < 0 { -q } else { q };
    assert((if q * d < 0 { -(q * d) } else { q * d }) == aq * ad) by (nonlinear_arith)
        requires
            ad == (if d < 0 { -d } else { d }),
            aq == (if q < 0 { -q } else { q }),
    ;
    vstd::arithmetic::div_mod::lemma_mod_multiples_basic(aq, ad);
}

/// Two steps that solve the same equation are equal.
proof fn lemma_unique_step(q: int, r: int, d: int, n: int)
    requires
        d != 0,
        q * d == n,
        r * d == n,
    ensures
        q == r,
{
    assert((q - r) * d == 0) by (nonlinear_arith)
        requires
            q * d == n,
            r * d == n,
    ;
    assert(q - r == 0) by (nonlinear_arith)
        requires
            (q - r) * d == 0,
            d != 0,
    ;
}

/// Whether the integer split of `first_start -> first_end` against
/// `second_start -> second_end` is certified: every product fits in `i128`,
/// and a crossing of the two segments falls on an integer point.
pub open spec fn split64_certified(first_start: Point64, first_end: Point64, second_start: Point64, second_end: Point64) -> bool {
    let first = (first_end.x - first_start.x, first_end.y - first_start.y);
    let second = (second_end.x - second_start.x, second_end.y - second_start.y);
    let between = (second_start.x - first_start.x, second_start.y - first_start.y);
    let d = cross_of(first, second);
    if !cross_fits(first, second) {
        false
    } else if d == 0 {
        if !cross_fits(between, first) {
            false
        } else if cross_of(between, first) != 0 {
            true
        } else {
            cross_fits((second_start.x - first_start.x, second_start.y - first_start.y), first)
                && cross_fits((second_end.x - first_start.x, second_end.y - first_start.y), first)
        }
    } else if !(cross_fits(between, second) && cross_fits(between, first)) {
        false
    } else if !(unit_ratio(cross_of(between, second), d) && unit_ratio(cross_of(between, first), d)) {
        true
    } else {
        let n = cross_of(between, second);
        &&& fits_i128(first.0 * n)
        &&& fits_i128(first.1 * n)
        &&& integral_step(first_start.x as int, first.0 * n, d)
        &&& integral_step(first_start.y as int, first.1 * n, d)
    }
}

#[verifier::spinoff_prover]
pub fn split_edge_pair64(
    first_start: Point64,
    first_end: Point64,
    second_start: Point64,
    second_end: Point64,
    points: &mut Vec<Point64>,
) -> (certified: bool)
    ensures
        final(points)@.len() >= old(points)@.len(),
        forall|i: int| 0 <= i < old(points)@.len() ==> #[trigger] final(points)@[i] == old(points)@[i],
        forall|i: int|
            old(points)@.len() <= i < final(points)@.len() ==> on_segment64(first_start, first_end, #[trigger] final(points)@[i]),
        certified == split64_certified(first_start, first_end, second_start, second_end),
        ({
            let first = (first_end.x - first_start.x, first_end.y - first_start.y);
            let second = (second_end.x - second_start.x, second_end.y - second_start.y);
            let between = (second_start.x - first_start.x, second_start.y - first_start.y);
            let d = cross_of(first, second);
            let n = cross_of(between, second);
            certified && d == 0 && cross_of(between, first) == 0 ==> (crate::geometry::on_segment_spec(
                second_start,
                first_start,
                first_end,
            ) ==> final(points)@.contains(second_start)) && (crate::geometry::on_segment_spec(
                second_end,
                first_start,
                first_end,
            ) ==> final(points)@.contains(second_end))
        }),
        ({
            let first = (first_end.x - first_start.x, first_end.y - first_start.y);
            let second = (second_end.x - second_start.x, second_end.y - second_start.y);
            let between = (second_start.x - first_start.x, second_start.y - first_start.y);
            let d = cross_of(first, second);
            let n = cross_of(between, second);
            certified && d != 0 && unit_ratio(n, d) && unit_ratio(cross_of(between, first), d) ==> exists|p: Point64|
                #[trigger] final(points)@.contains(p) && (p.x - first_start.x) * d == first.0 * n && (p.y
                    - first_start.y) * d == first.1 * n
        }),
        ({
            let first = (first_end.x - first_start.x, first_end.y - first_start.y);
            let second = (second_end.x - second_start.x, second_end.y - second_start.y);
            let between = (second_start.x - first_start.x, second_start.y - first_start.y);
            let d = cross_of(first, second);
            let n = cross_of(between, second);
            &&& d != 0 ==> (final(points)@ == old(points)@ || (final(points)@ == old(points)@.push(
                final(points)@.last(),
            ) && (final(points)@.last().x - first_start.x) * d == first.0 * n && (final(points)@.last().y
                - first_start.y) * d == first.1 * n))
            &&& d != 0 && !(certified && unit_ratio(n, d) && unit_ratio(cross_of(between, first), d))
                ==> final(points)@ == old(points)@
            &&& d == 0 ==> forall|i: int|
                old(points)@.len() <= i < final(points)@.len() ==> #[trigger] final(points)@[i] == second_start
                    || final(points)@[i] == second_end
            &&& d == 0 && cross_of(between, first) != 0 ==> final(points)@ == old(points)@
        }),
{
    let first = vector64(first_start, first_end);
    let second = vector64(second_start, second_end);
    let between = vector64(first_start, second_start);
    let denominator = match cross64(first, second) {
        Some(value) => value,
        None => return false,
    };
    if denominator == 0 {
        match cross64(between, first) {
            None => return false,
            Some(value) => {
                if value != 0 {
                    return true;
                }
            },
        }
        let ghost initial = points@;
        match point_on_segment64(second_start, first_start, first_end) {
            None => return false,
            Some(on) => {
                if on {
                    proof {
                        lemma_on_segment64(first_start, first_end, second_start);
                    }
                    push_unique_point(points, second_start);
                }
            },
        }
        let ghost middle = points@;
        match point_on_segment64(second_end, first_start, first_end) {
            None => return false,
            Some(on) => {
                if on {
                    proof {
                        lemma_on_segment64(first_start, first_end, second_end);
                    }
                    push_unique_point(points, second_end);
                }
            },
        }
        proof {
            if middle.contains(second_start) {
                let w = choose|w: int| 0 <= w < middle.len() && middle[w] == second_start;
                assert(points@[w] == middle[w]);
            }
            assert forall|i: int| initial.len() <= i < points@.len() implies on_segment64(
                first_start,
                first_end,
                #[trigger] points@[i],
            ) by {
                if i < middle.len() {
                    assert(points@[i] == middle[i]);
                }
            }
        }
        return true;
    }
    let first_numerator = match cross64(between, second) {
        Some(value) => value,
        None => return false,
    };
    let second_numerator = match cross64(between, first) {
        Some(value) => value,
        None => return false,
    };
    if !ratio_in_unit_interval(first_numerator, denominator) || !ratio_in_unit_interval(
        second_numerator,
        denominator,
    ) {
        return true;
    }
    let x_delta = match first.0.checked_mul(first_numerator) {
        Some(value) => value,
        None => return false,
    };
    let y_delta = match first.1.checked_mul(first_numerator) {
        Some(value) => value,
        None => return false,
    };
    let x_step = match divide_exact(x_delta, denominator) {
        Some(value) => value,
        None => {
            proof {
                if integral_step(first_start.x as int, x_delta as int, denominator as int) {
                    let q = choose|q: int| q * denominator == x_delta && i64::MIN <= #[trigger] (first_start.x + q) <= i64::MAX;
                    lemma_multiple_divides(q, denominator as int);
                }
            }
            return false;
        },
    };
    let y_step = match divide_exact(y_delta, denominator) {
        Some(value) => value,
        None => {
            proof {
                if integral_step(first_start.y as int, y_delta as int, denominator as int) {
                    let q = choose|q: int| q * denominator == y_delta && i64::MIN <= #[trigger] (first_start.y + q) <= i64::MAX;
                    lemma_multiple_divides(q, denominator as int);
                }
            }
            return false;
        },
    };
    proof {
        if integral_step(first_start.x as int, x_delta as int, denominator as int) {
            let q = choose|q: int| q * denominator == x_delta && i64::MIN <= #[trigger] (first_start.x + q) <= i64::MAX;
            lemma_unique_step(q, x_step as int, denominator as int, x_delta as int);
        }
        if integral_step(first_start.y as int, y_delta as int, denominator as int) {
            let q = choose|q: int| q * denominator == y_delta && i64::MIN <= #[trigger] (first_start.y + q) <= i64::MAX;
            lemma_unique_step(q, y_step as int, denominator as int, y_delta as int);
        }
    }
    let x = match (first_start.x as i128).checked_add(x_step) {
        Some(value) => value,
        None => return false,
    };
    let y = match (first_start.y as i128).checked_add(y_step) {
        Some(value) => value,
        None => return false,
    };
    if x < i64::MIN as i128 || x > i64::MAX as i128 || y < i64::MIN as i128 || y > i64::MAX as i128 {
        return false;
    }
    let crossing = Point64 { x: x as i64, y: y as i64 };
    proof {
        let n = first_numerator as int;
        let d = denominator as int;
        let (t0, t1) = if d > 0 { (n, d) } else { (-n, -d) };
        assert(crossing.x * t1 == first_start.x * t1 + (first_end.x - first_start.x) * t0) by (nonlinear_arith)
            requires
                crossing.x == first_start.x + x_step,
                x_step * d == (first_end.x - first_start.x) * n,
                (t0 == n && t1 == d) || (t0 == -n && t1 == -d),
        ;
        assert(crossing.y * t1 == first_start.y * t1 + (first_end.y - first_start.y) * t0) by (nonlinear_arith)
            requires
                crossing.y == first_start.y + y_step,
                y_step * d == (first_end.y - first_start.y) * n,
                (t0 == n && t1 == d) || (t0 == -n && t1 == -d),
        ;
        lemma_at_segment64(first_start, first_end, crossing, t0, t1);
    }
    let ghost before = points@;
    push_unique_point(points, crossing);
    proof {
        if points@ != before {
            assert(points@.last() == crossing);
        }
    }
    true
}

/// Orders points along the segment `start -> end` by its dominant axis, in
/// the segment's direction, and removes repeated points.
#[verifier::spinoff_prover]
pub fn sort_points_on_segment64(points: &Vec<Point64>, start: Point64, end: Point64) -> (sorted: Vec<Point64>)
    ensures
        sorted@.len() <= points@.len(),
        forall|i: int| 0 <= i < sorted@.len() ==> points@.contains(#[trigger] sorted@[i]),
        forall|i: int| 0 <= i < points@.len() ==> sorted@.contains(#[trigger] points@[i]),
        forall|i: int| 0 < i < sorted@.len() ==> #[trigger] sorted@[i] != sorted@[i - 1],
        forall|i: int| 0 < i < sorted@.len() ==> along_key(sorted@[i - 1], start, end) <= along_key(
            #[trigger] sorted@[i],
            start,
            end,
        ),
{
    let dx = (end.x as i128) - (start.x as i128);
    let dy = (end.y as i128) - (start.y as i128);
    let abs_dx = if dx < 0 {
        -dx
    } else {
        dx
    };
    let abs_dy = if dy < 0 {
        -dy
    } else {
        dy
    };
    let use_x = abs_dx >= abs_dy;
    let reversed = (use_x && end.x < start.x) || (!use_x && end.y < start.y);
    assert(use_x == dominant_x(start, end) && reversed == (if use_x { end.x < start.x } else { end.y < start.y }));
    let len = points.len();
    let mut order: Vec<usize> = Vec::new();
    let mut index: usize = 0;
    while index < len
        invariant
            len == points@.len(),
            index <= len,
            order@.len() == index,
            forall|k: int| 0 <= k < order@.len() ==> #[trigger] order@[k] < len,
            forall|k: int| 0 <= k < order@.len() ==> #[trigger] order@[k] == k,
        decreases len - index,
    {
        order.push(index);
        index += 1;
    }
    let ghost initial = order@;
    let before = |i: usize, j: usize| -> (r: bool)
        requires
            i < points@.len(),
            j < points@.len(),
        ensures
            r == (axis_key(points@[i as int], use_x, reversed) < axis_key(points@[j as int], use_x, reversed)),
        {
            let (a, b) = if use_x {
                (points[i].x, points[j].x)
            } else {
                (points[i].y, points[j].y)
            };
            if reversed {
                a > b
            } else {
                a < b
            }
        };
    let ghost ascending = |i: usize, j: usize|
        axis_key(points@[i as int], use_x, reversed) < axis_key(points@[j as int], use_x, reversed);
    assert(decides(before, ascending, len));
    sort_indices_by(&mut order, len, &before, Ghost(ascending));
    let mut sorted: Vec<Point64> = Vec::new();
    let mut position: usize = 0;
    while position < len
        invariant
            len == points@.len(),
            order@.len() == len,
            forall|k: int| 0 <= k < order@.len() ==> #[trigger] order@[k] < len,
            position <= len,
            sorted@.len() <= position,
            forall|i: int| 0 <= i < sorted@.len() ==> points@.contains(#[trigger] sorted@[i]),
            forall|p: int| 0 <= p < position ==> sorted@.contains(points@[#[trigger] order@[p] as int]),
            forall|i: int| 0 < i < sorted@.len() ==> #[trigger] sorted@[i] != sorted@[i - 1],
            position > 0 ==> sorted@.len() > 0,
            adjacent_in_order(order@, ascending),
            forall|i: usize, j: usize|
                #[trigger] ascending(i, j) == (axis_key(points@[i as int], use_x, reversed) < axis_key(
                    points@[j as int],
                    use_x,
                    reversed,
                )),
            position > 0 ==> sorted@.last() == points@[order@[position - 1] as int],
            forall|i: int| 0 < i < sorted@.len() ==> axis_key(sorted@[i - 1], use_x, reversed) <= axis_key(
                #[trigger] sorted@[i],
                use_x,
                reversed,
            ),
        decreases len - position,
    {
        let point = points[order[position]];
        let count = sorted.len();
        let ghost previous = sorted@;
        if count == 0 || sorted[count - 1] != point {
            proof {
                if count > 0 {
                    assert(!ascending(order@[position as int], order@[position - 1]));
                }
            }
            sorted.push(point);
            proof {
                assert forall|i: int| 0 < i < sorted@.len() implies axis_key(sorted@[i - 1], use_x, reversed)
                    <= axis_key(#[trigger] sorted@[i], use_x, reversed) by {
                    if i < count {
                        assert(sorted@[i - 1] == previous[i - 1] && sorted@[i] == previous[i]);
                    } else {
                        assert(sorted@[i - 1] == previous[i - 1]);
                    }
                }
                assert(points@[order@[position as int] as int] == point);
                assert(sorted@[sorted@.len() - 1] == point);
                assert forall|p: int| 0 <= p < position + 1 implies sorted@.contains(
                    points@[#[trigger] order@[p] as int],
                ) by {
                    if p < position {
                        let w = choose|w: int| 0 <= w < previous.len() && previous[w] == points@[order@[p] as int];
                        assert(sorted@[w] == previous[w]);
                    } else {
                        assert(sorted@[count as int] == point);
                    }
                }
            }
        } else {
            proof {
                assert(sorted@[count - 1] == point);
            }
        }
        position += 1;
    }
    proof {
        assert forall|i: int| 0 <= i < points@.len() implies sorted@.contains(#[trigger] points@[i]) by {
            crate::arrangement::lemma_order_covers(initial, order@, len as int, i);
            let p = choose|p: int| 0 <= p < order@.len() && order@[p] == i;
            assert(sorted@.contains(points@[order@[p] as int]));
        }
    }
    sorted
}

/// Whether the segment `start -> end` runs at least as far along x as
/// along y.
pub open spec fn dominant_x(start: Point64, end: Point64) -> bool {
    let dx = end.x - start.x;
    let dy = end.y - start.y;
    (if dx < 0 { -dx } else { dx }) >= (if dy < 0 { -dy } else { dy })
}

/// The coordinate of `point` on the chosen axis, negated where the segment
/// runs backwards along it.
pub open spec fn axis_key(point: Point64, use_x: bool, reversed: bool) -> int {
    let value = if use_x { point.x as int } else { point.y as int };
    if reversed { -value } else { value }
}

/// The position of `point` along the segment `start -> end`, measured on the
/// segment's dominant axis in the segment's direction.
pub open spec fn along_key(point: Point64, start: Point64, end: Point64) -> int {
    let use_x = dominant_x(start, end);
    axis_key(point, use_x, if use_x { end.x < start.x } else { end.y < start.y })
}

/// The winding at the midpoint of `first -> second`.
pub enum MidpointWinding64 {
    /// The midpoint lies on a boundary edge.
    Boundary,
    /// The winding number at the midpoint.
    Winding(i128),
}

/// The cross product of edge `start -> end` with the offset from its start
/// to the doubled point `m`, in doubled coordinates.
pub open spec fn doubled_cross(m: (int, int), start: Point64, end: Point64) -> int {
    (end.x - start.x) * (m.1 - 2 * start.y) - (end.y - start.y) * (m.0 - 2 * start.x)
}

/// Whether the doubled point `m` lies on edge `start -> end`.
pub open spec fn doubled_on_edge(m: (int, int), start: Point64, end: Point64) -> bool {
    &&& doubled_cross(m, start, end) == 0
    &&& (if start.x <= end.x { 2 * start.x <= m.0 <= 2 * end.x } else { 2 * end.x <= m.0 <= 2 * start.x })
    &&& (if start.y <= end.y { 2 * start.y <= m.1 <= 2 * end.y } else { 2 * end.y <= m.1 <= 2 * start.y })
}

/// The winding contribution of edge `start -> end` at the doubled point `m`
/// (rightward ray, half-open in `y`).
pub open spec fn doubled_edge_winding(m: (int, int), start: Point64, end: Point64) -> int {
    if (2 * start.y > m.1) != (2 * end.y > m.1) {
        if end.y > start.y {
            if doubled_cross(m, start, end) > 0 {
                1
            } else {
                0
            }
        } else if doubled_cross(m, start, end) < 0 {
            -1
        } else {
            0
        }
    } else {
        0
    }
}

/// The winding of the first `n` edges of a closed path at the doubled point
/// `m`, or `None` when `m` lies on one of them.
pub open spec fn doubled_path_winding(m: (int, int), path: Seq<Point64>, n: nat) -> Option<int>
    decreases n,
{
    if n == 0 {
        Some(0)
    } else {
        match doubled_path_winding(m, path, (n - 1) as nat) {
            None => None,
            Some(winding) => {
                let start = path[n - 1];
                let end = path[if n == path.len() { 0 } else { n as int }];
                if doubled_on_edge(m, start, end) {
                    None
                } else {
                    Some(winding + doubled_edge_winding(m, start, end))
                }
            },
        }
    }
}

/// The winding of the first `n` paths at the doubled point `m`, or `None`
/// when `m` lies on one of their edges.
pub open spec fn doubled_paths_winding(m: (int, int), paths: Seq<Vec<Point64>>, n: nat) -> Option<int>
    decreases n,
{
    if n == 0 {
        Some(0)
    } else {
        match doubled_paths_winding(m, paths, (n - 1) as nat) {
            None => None,
            Some(before) => match doubled_path_winding(m, paths[n - 1]@, paths[n - 1]@.len()) {
                None => None,
                Some(winding) => Some(before + winding),
            },
        }
    }
}

/// The winding number of `paths` at the midpoint of `first` and `second`,
/// or `None` when the midpoint lies on an edge.
pub open spec fn midpoint_winding(first: Point64, second: Point64, paths: Seq<Vec<Point64>>) -> Option<int> {
    doubled_paths_winding((first.x + second.x, first.y + second.y), paths, paths.len())
}

/// The doubled cross product of an edge with the doubled midpoint `m` fits
/// in `i128`.
pub open spec fn midpoint_edge_fits(m: (int, int), start: Point64, end: Point64) -> bool {
    let u = (end.x - start.x, end.y - start.y);
    let v = (m.0 - 2 * start.x, m.1 - 2 * start.y);
    fits_i128(u.0 * v.1) && fits_i128(u.1 * v.0) && fits_i128(u.0 * v.1 - u.1 * v.0)
}

/// The number of points of the first `n` paths.
pub open spec fn point_count64(paths: Seq<Vec<Point64>>, n: nat) -> int
    decreases n,
{
    if n == 0 {
        0
    } else {
        point_count64(paths, (n - 1) as nat) + paths[n - 1]@.len()
    }
}

proof fn lemma_point_count64_monotone(paths: Seq<Vec<Point64>>, a: nat, b: nat)
    requires
        a <= b,
    ensures
        point_count64(paths, a) <= point_count64(paths, b),
    decreases b,
{
    if a < b {
        lemma_point_count64_monotone(paths, a, (b - 1) as nat);
    }
}

/// Every cross product of the midpoint test fits in `i128`, and the paths
/// have no more points than an `i128` counts.
pub open spec fn midpoint_fits(first: Point64, second: Point64, paths: Seq<Vec<Point64>>) -> bool {
    let m = (first.x + second.x, first.y + second.y);
    &&& forall|p: int, k: int|
        0 <= p < paths.len() && 0 <= k < paths[p]@.len() ==> midpoint_edge_fits(
            m,
            #[trigger] paths[p]@[k],
            paths[p]@[if k + 1 == paths[p]@.len() { 0 } else { k + 1 }],
        )
    &&& point_count64(paths, paths.len()) <= i128::MAX
}

/// The winding of `paths` at the midpoint of `first` and `second`, computed
/// in doubled coordinates; `None` when the arithmetic overflows.
#[verifier::spinoff_prover]
#[verifier::rlimit(50)]
pub fn paths_winding_at64_midpoint(first: Point64, second: Point64, paths: &[Vec<Point64>]) -> (result: Option<MidpointWinding64>)
    ensures
        result matches Some(MidpointWinding64::Boundary) ==> midpoint_winding(first, second, paths@) is None,
        result matches Some(MidpointWinding64::Winding(w)) ==> midpoint_winding(first, second, paths@) == Some(w as int),
        midpoint_fits(first, second, paths@) ==> result is Some,
{
    let mx = (first.x as i128) + (second.x as i128);
    let my = (first.y as i128) + (second.y as i128);
    let ghost m = (first.x + second.x, first.y + second.y);
    let ghost fits = midpoint_fits(first, second, paths@);
    let mut winding: i128 = 0;
    let mut p: usize = 0;
    while p < paths.len()
        invariant
            p <= paths@.len(),
            mx == first.x + second.x,
            my == first.y + second.y,
            m == (mx as int, my as int),
            doubled_paths_winding(m, paths@, p as nat) == Some(winding as int),
            fits == midpoint_fits(first, second, paths@),
            fits ==> -point_count64(paths@, p as nat) <= winding <= point_count64(paths@, p as nat),
        decreases paths@.len() - p,
    {
        let path = &paths[p];
        let len = path.len();
        let ghost before = winding as int;
        proof {
            if fits {
                lemma_point_count64_monotone(paths@, (p + 1) as nat, paths@.len());
            }
        }
        let mut k: usize = 0;
        while k < len
            invariant
                len == path@.len(),
                path == paths@[p as int],
                p < paths@.len(),
                k <= len,
                mx == first.x + second.x,
                my == first.y + second.y,
                m == (mx as int, my as int),
                doubled_paths_winding(m, paths@, p as nat) == Some(before),
                doubled_path_winding(m, path@, k as nat) == Some(winding - before),
                fits == midpoint_fits(first, second, paths@),
                fits ==> -point_count64(paths@, p as nat) - k <= winding <= point_count64(paths@, p as nat) + k,
                fits ==> point_count64(paths@, (p + 1) as nat) <= i128::MAX,
            decreases len - k,
        {
            let start = path[k];
            let end = path[if k + 1 == len {
                0
            } else {
                k + 1
            }];
            proof {
                if fits {
                    assert(midpoint_edge_fits(m, path@[k as int], path@[if k + 1 == path@.len() { 0 } else { k + 1 }]));
                }
            }
            let sx = (start.x as i128) * 2;
            let sy = (start.y as i128) * 2;
            let ex = (end.x as i128) * 2;
            let ey = (end.y as i128) * 2;
            let cross = match cross64(vector64(start, end), (mx - sx, my - sy)) {
                Some(value) => value,
                None => return None,
            };
            let (min_x, max_x) = if sx <= ex {
                (sx, ex)
            } else {
                (ex, sx)
            };
            let (min_y, max_y) = if sy <= ey {
                (sy, ey)
            } else {
                (ey, sy)
            };
            proof {
                assert(cross == doubled_cross(m, start, end));
                assert(end == path@[if k + 1 == path@.len() { 0 } else { k + 1 }]);
            }
            if cross == 0 && mx >= min_x && mx <= max_x && my >= min_y && my <= max_y {
                proof {
                    assert(doubled_on_edge(m, start, end));
                    assert(doubled_path_winding(m, path@, (k + 1) as nat) is None);
                    lemma_doubled_path_none(m, path@, (k + 1) as nat, len as nat);
                    lemma_doubled_paths_none(m, paths@, (p + 1) as nat, paths@.len() as nat);
                }
                return Some(MidpointWinding64::Boundary);
            }
            proof {
                assert(!doubled_on_edge(m, start, end));
            }
            if (sy > my) != (ey > my) {
                if end.y > start.y {
                    if cross > 0 {
                        winding = match winding.checked_add(1) {
                            Some(value) => value,
                            None => return None,
                        };
                    }
                } else if cross < 0 {
                    winding = match winding.checked_sub(1) {
                        Some(value) => value,
                        None => return None,
                    };
                }
            }
            proof {
                assert(doubled_path_winding(m, path@, (k + 1) as nat) == Some(winding - before));
            }
            k += 1;
        }
        proof {
            assert(doubled_paths_winding(m, paths@, (p + 1) as nat) == Some(winding as int));
        }
        p += 1;
    }
    Some(MidpointWinding64::Winding(winding))
}

proof fn lemma_doubled_path_none(m: (int, int), path: Seq<Point64>, a: nat, b: nat)
    requires
        a <= b,
        doubled_path_winding(m, path, a) is None,
    ensures
        doubled_path_winding(m, path, b) is None,
    decreases b - a,
{
    if a < b {
        lemma_doubled_path_none(m, path, a, (b - 1) as nat);
    }
}

proof fn lemma_doubled_paths_none(m: (int, int), paths: Seq<Vec<Point64>>, a: nat, b: nat)
    requires
        a <= b,
        doubled_paths_winding(m, paths, a) is None,
    ensures
        doubled_paths_winding(m, paths, b) is None,
    decreases b - a,
{
    if a < b {
        lemma_doubled_paths_none(m, paths, a, (b - 1) as nat);
    }
}

/// The classification of an open fragment.
pub enum OpenKeep64 {
    /// The fragment lies on a filled boundary.
    Boundary,
    /// Whether the fragment is kept.
    Keep(bool),
}

/// Whether the open fragment `start -> end` is kept, judged at its midpoint:
/// inside the clips for an intersection, outside them for a difference or
/// XOR, outside every closed path for a union; `None` when the midpoint lies
/// on a boundary that decides it.
pub open spec fn open_keep64_spec(
    start: Point64,
    end: Point64,
    closed_subjects: Seq<Vec<Point64>>,
    clips: Seq<Vec<Point64>>,
    clip_type: ClipType,
    fill_rule: FillRule,
) -> Option<bool> {
    match midpoint_winding(start, end, clips) {
        None => None,
        Some(clip_winding) => {
            let in_clip = winding_contains_spec(clip_winding, fill_rule);
            match clip_type {
                ClipType::Intersection => Some(in_clip),
                ClipType::Difference | ClipType::Xor => Some(!in_clip),
                ClipType::Union => match midpoint_winding(start, end, closed_subjects) {
                    None => None,
                    Some(subject_winding) => Some(!in_clip && !winding_contains_spec(subject_winding, fill_rule)),
                },
            }
        },
    }
}

/// Classifies the fragment `start -> end` by the windings at its midpoint;
/// `None` when the arithmetic overflows.
pub fn open_fragment_keep64(
    start: Point64,
    end: Point64,
    closed_subjects: &[Vec<Point64>],
    clips: &[Vec<Point64>],
    clip_type: ClipType,
    fill_rule: FillRule,
) -> (result: Option<OpenKeep64>)
    ensures
        result matches Some(OpenKeep64::Boundary) ==> open_keep64_spec(
            start,
            end,
            closed_subjects@,
            clips@,
            clip_type,
            fill_rule,
        ) is None,
        result matches Some(OpenKeep64::Keep(keep)) ==> open_keep64_spec(
            start,
            end,
            closed_subjects@,
            clips@,
            clip_type,
            fill_rule,
        ) == Some(keep),
        midpoint_fits(start, end, clips@) && (clip_type == ClipType::Union ==> midpoint_fits(start, end, closed_subjects@))
            ==> result is Some,
{
    let clip_winding = match paths_winding_at64_midpoint(start, end, clips) {
        None => return None,
        Some(MidpointWinding64::Boundary) => return Some(OpenKeep64::Boundary),
        Some(MidpointWinding64::Winding(value)) => value,
    };
    let in_clip = winding_contains(clip_winding, fill_rule);
    match clip_type {
        ClipType::Intersection => return Some(OpenKeep64::Keep(in_clip)),
        ClipType::Difference | ClipType::Xor => return Some(OpenKeep64::Keep(!in_clip)),
        ClipType::Union => {},
    }
    let subject_winding = match paths_winding_at64_midpoint(start, end, closed_subjects) {
        None => return None,
        Some(MidpointWinding64::Boundary) => return Some(OpenKeep64::Boundary),
        Some(MidpointWinding64::Winding(value)) => value,
    };
    Some(OpenKeep64::Keep(!in_clip && !winding_contains(subject_winding, fill_rule)))
}

/// An integer open fragment and its classification.
#[derive(Clone, Copy)]
pub struct OpenFragment64 {
    /// First endpoint.
    pub start: Point64,
    /// Second endpoint.
    pub end: Point64,
    /// Whether it is kept; `None` on a filled boundary.
    pub keep: Option<bool>,
}

/// The first fragment of the run of undecided fragments that holds `i`.
pub open spec fn run_start64(fragments: Seq<OpenFragment64>, i: int) -> int
    decreases i,
{
    if i > 0 && fragments[i - 1].keep is None {
        run_start64(fragments, i - 1)
    } else {
        i
    }
}

/// One past the last fragment of the run of undecided fragments that holds
/// `i`.
pub open spec fn run_end64(fragments: Seq<OpenFragment64>, i: int) -> int
    decreases fragments.len() - i,
{
    if 0 <= i && i + 1 < fragments.len() && fragments[i + 1].keep is None {
        run_end64(fragments, i + 1)
    } else {
        i + 1
    }
}

/// The decision of fragment `i` once boundary runs are resolved: its own
/// where it has one; otherwise that of the run's neighbours, where they
/// disagree the one on the higher side (by the previous fragment's start
/// and the next fragment's end), and none kept when the run has no
/// neighbour.
pub open spec fn resolved_keep64(fragments: Seq<OpenFragment64>, i: int) -> Option<bool> {
    if fragments[i].keep is Some {
        fragments[i].keep
    } else {
        let s = run_start64(fragments, i);
        let t = run_end64(fragments, i);
        let previous = if s > 0 { fragments[s - 1].keep } else { None };
        let next = if t < fragments.len() { fragments[t].keep } else { None };
        let y_order = if s > 0 && t < fragments.len() {
            crate::geometry::sign(fragments[s - 1].start.y - fragments[t].end.y)
        } else {
            0
        };
        Some(boundary_run_keep_spec(previous, next, y_order))
    }
}

/// Inside a maximal run of undecided fragments, every fragment's run has
/// the same bounds.
proof fn lemma_run_bounds64(fragments: Seq<OpenFragment64>, s: int, t: int, i: int)
    requires
        0 <= s <= i < t <= fragments.len(),
        forall|j: int| s <= j < t ==> (#[trigger] fragments[j]).keep is None,
        s == 0 || fragments[s - 1].keep is Some,
        t == fragments.len() || fragments[t].keep is Some,
    ensures
        run_start64(fragments, i) == s,
        run_end64(fragments, i) == t,
{
    lemma_run_start64(fragments, s, t, i);
    lemma_run_end64(fragments, s, t, i);
}

proof fn lemma_run_start64(fragments: Seq<OpenFragment64>, s: int, t: int, i: int)
    requires
        0 <= s <= i < t <= fragments.len(),
        forall|j: int| s <= j < t ==> (#[trigger] fragments[j]).keep is None,
        s == 0 || fragments[s - 1].keep is Some,
    ensures
        run_start64(fragments, i) == s,
    decreases i,
{
    if i > s {
        assert(fragments[i - 1].keep is None);
        lemma_run_start64(fragments, s, t, i - 1);
    }
}

proof fn lemma_run_end64(fragments: Seq<OpenFragment64>, s: int, t: int, i: int)
    requires
        0 <= s <= i < t <= fragments.len(),
        forall|j: int| s <= j < t ==> (#[trigger] fragments[j]).keep is None,
        t == fragments.len() || fragments[t].keep is Some,
    ensures
        run_end64(fragments, i) == t,
    decreases fragments.len() - i,
{
    if i + 1 < t {
        assert(fragments[i + 1].keep is None);
        lemma_run_end64(fragments, s, t, i + 1);
    }
}

/// Gives every boundary run the decision of its neighbours.
pub fn resolve_boundary_fragments64(fragments: &mut Vec<OpenFragment64>)
    ensures
        final(fragments)@.len() == old(fragments)@.len(),
        forall|i: int| 0 <= i < final(fragments)@.len() ==> (#[trigger] final(fragments)@[i]).keep is Some,
        forall|i: int| 0 <= i < old(fragments)@.len() ==> (#[trigger] final(fragments)@[i]).start == old(fragments)@[i].start
            && final(fragments)@[i].end == old(fragments)@[i].end,
        forall|i: int| 0 <= i < old(fragments)@.len() && old(fragments)@[i].keep is Some ==> (#[trigger] final(fragments)@[i]).keep == old(fragments)@[i].keep,
        forall|i: int| 0 <= i < old(fragments)@.len() ==> (#[trigger] final(fragments)@[i]).keep == resolved_keep64(
            old(fragments)@,
            i,
        ),
{
    let len = fragments.len();
    let ghost original = fragments@;
    let mut index: usize = 0;
    while index < len
        invariant
            len == fragments@.len(),
            len == original.len(),
            index <= len,
            forall|i: int| 0 <= i < index ==> (#[trigger] fragments@[i]).keep == resolved_keep64(original, i),
            index < len && original[index as int].keep is None ==> index == 0 || original[index - 1].keep is Some,
            forall|i: int| 0 <= i < index ==> (#[trigger] fragments@[i]).keep is Some,
            forall|i: int| 0 <= i < len ==> (#[trigger] fragments@[i]).start == original[i].start && fragments@[i].end == original[i].end,
            forall|i: int| 0 <= i < len && original[i].keep is Some ==> (#[trigger] fragments@[i]).keep == original[i].keep,
            forall|i: int| index <= i < len ==> #[trigger] fragments@[i] == original[i],
        decreases len - index,
    {
        if fragments[index].keep.is_some() {
            proof {
                assert(fragments@[index as int] == original[index as int]);
            }
            index += 1;
        } else {
            let start = index;
            while index < len && fragments[index].keep.is_none()
                invariant
                    len == fragments@.len(),
                    len == original.len(),
                    start <= index <= len,
                    forall|i: int| 0 <= i < start ==> (#[trigger] fragments@[i]).keep is Some,
                    forall|i: int| 0 <= i < len ==> (#[trigger] fragments@[i]).start == original[i].start && fragments@[i].end == original[i].end,
                    forall|i: int| 0 <= i < len && original[i].keep is Some ==> (#[trigger] fragments@[i]).keep == original[i].keep,
                    forall|i: int| start <= i < len ==> #[trigger] fragments@[i] == original[i],
                    forall|i: int| start <= i < index ==> (#[trigger] original[i]).keep is None,
                    forall|i: int| 0 <= i < start ==> (#[trigger] fragments@[i]).keep == resolved_keep64(original, i),
                    start < len && original[start as int].keep is None,
                    start == 0 || original[start - 1].keep is Some,
                decreases len - index,
            {
                index += 1;
            }
            let previous_keep = if start == 0 {
                None
            } else {
                fragments[start - 1].keep
            };
            let next_keep = if index < len {
                fragments[index].keep
            } else {
                None
            };
            let y_order: i8 = if start > 0 && index < len {
                let left = fragments[start - 1].start.y;
                let right = fragments[index].end.y;
                if left > right {
                    1
                } else if left < right {
                    -1
                } else {
                    0
                }
            } else {
                0
            };
            let keep = boundary_run_keep(previous_keep, next_keep, y_order);
            proof {
                assert(index == len || original[index as int].keep is Some);
                if start > 0 {
                    assert(fragments@[start - 1].keep == original[start - 1].keep);
                    assert(fragments@[start - 1].start == original[start - 1].start);
                }
                if index < len {
                    assert(fragments@[index as int] == original[index as int]);
                    if start > 0 {
                        let left = original[start - 1].start.y;
                        let right = original[index as int].end.y;
                        assert(y_order as int == crate::geometry::sign(left - right));
                    }
                }
            }
            let mut k = start;
            while k < index
                invariant
                    forall|i: int| 0 <= i < k ==> (#[trigger] fragments@[i]).keep == resolved_keep64(original, i),
                    keep == boundary_run_keep_spec(
                        if start > 0 { original[start - 1].keep } else { None },
                        if index < len { original[index as int].keep } else { None },
                        if start > 0 && index < len {
                            crate::geometry::sign(original[start - 1].start.y - original[index as int].end.y)
                        } else {
                            0
                        },
                    ),
                    start == 0 || original[start - 1].keep is Some,
                    index == len || original[index as int].keep is Some,
                    len == fragments@.len(),
                    len == original.len(),
                    start <= k <= index <= len,
                    forall|i: int| 0 <= i < k ==> (#[trigger] fragments@[i]).keep is Some,
                    forall|i: int| start <= i < index ==> (#[trigger] original[i]).keep is None,
                    forall|i: int| 0 <= i < len ==> (#[trigger] fragments@[i]).start == original[i].start && fragments@[i].end == original[i].end,
                    forall|i: int| 0 <= i < len && original[i].keep is Some ==> (#[trigger] fragments@[i]).keep == original[i].keep,
                    forall|i: int| k <= i < len ==> #[trigger] fragments@[i] == original[i],
                decreases index - k,
            {
                let fragment = fragments[k];
                let ghost before = fragments@;
                fragments.set(k, OpenFragment64 { start: fragment.start, end: fragment.end, keep: Some(keep) });
                proof {
                    lemma_run_bounds64(original, start as int, index as int, k as int);
                    assert forall|i: int| 0 <= i < k + 1 implies (#[trigger] fragments@[i]).keep == resolved_keep64(original, i) by {
                        if i < k {
                            assert(fragments@[i] == before[i]);
                        }
                    }
                }
                k += 1;
            }
        }
    }
}

/// Appends the maximal runs of kept fragments, as polylines of at least two
/// points, to `output`.
/// Whether every point lies on the segment from `a` to `b`.
spec fn points_on_segment64(points: Seq<Point64>, a: Point64, b: Point64) -> bool {
    forall|i: int| 0 <= i < points.len() ==> on_segment64(a, b, #[trigger] points[i])
}

/// Whether every fragment starts and ends on an edge of the open path.
spec fn fragments_on_path64(fragments: Seq<OpenFragment64>, path: Seq<Point64>) -> bool {
    forall|f: int|
        0 <= f < fragments.len() ==> on_open_path64(path, (#[trigger] fragments[f]).start) && on_open_path64(
            path,
            fragments[f].end,
        )
}

/// Both ends of a segment lie on it.
proof fn lemma_segment_ends64(a: Point64, b: Point64)
    ensures
        on_segment64(a, b, a),
        on_segment64(a, b, b),
{
    assert(a.x * 1 == a.x * 1 + (b.x - a.x) * 0 && a.y * 1 == a.y * 1 + (b.y - a.y) * 0) by (nonlinear_arith);
    lemma_at_segment64(a, b, a, 0, 1);
    assert(b.x * 1 == a.x * 1 + (b.x - a.x) * 1 && b.y * 1 == a.y * 1 + (b.y - a.y) * 1) by (nonlinear_arith);
    lemma_at_segment64(a, b, b, 1, 1);
}

/// The parameter at which a point of a segment lies along it.
proof fn lemma_segment_parameter64(a: Point64, b: Point64, q: Point64) -> (t: (int, int))
    requires
        on_segment64(a, b, q),
    ensures
        0 <= t.0 <= t.1,
        t.1 > 0,
        (q.x - a.x) * t.1 == (b.x - a.x) * t.0,
        (q.y - a.y) * t.1 == (b.y - a.y) * t.0,
{
    let t = choose|t: crate::rational::Q| #[trigger] crate::vertex_origin::at_segment64(a, b, t, q);
    let (t0, t1) = t;
    let (qx, ax, bx, qy, ay, by) = (q.x as int, a.x as int, b.x as int, q.y as int, a.y as int, b.y as int);
    assert(qx * (1 * ((1 * 1) * t1)) == (ax * ((1 * 1) * t1) + ((bx * 1 - ax * 1) * t0) * 1) * 1);
    assert(qy * (1 * ((1 * 1) * t1)) == (ay * ((1 * 1) * t1) + ((by * 1 - ay * 1) * t0) * 1) * 1);
    assert((qx - ax) * t1 == (bx - ax) * t0) by (nonlinear_arith)
        requires
            qx * (1 * ((1 * 1) * t1)) == (ax * ((1 * 1) * t1) + ((bx * 1 - ax * 1) * t0) * 1) * 1,
    ;
    assert((qy - ay) * t1 == (by - ay) * t0) by (nonlinear_arith)
        requires
            qy * (1 * ((1 * 1) * t1)) == (ay * ((1 * 1) * t1) + ((by * 1 - ay * 1) * t0) * 1) * 1,
    ;
    (t0, t1)
}

/// Along an increasing coordinate, a point of the segment lies between its
/// ends, at an end only at parameter zero or one.
proof fn lemma_parameter_order(qc: int, ac: int, bc: int, t0: int, t1: int)
    requires
        0 <= t0 <= t1,
        t1 > 0,
        (qc - ac) * t1 == (bc - ac) * t0,
        ac < bc,
    ensures
        ac <= qc <= bc,
        qc == ac ==> t0 == 0,
        qc == bc ==> t0 == t1,
{
    assert(ac <= qc) by (nonlinear_arith)
        requires
            0 <= t0,
            t1 > 0,
            (qc - ac) * t1 == (bc - ac) * t0,
            ac < bc,
    ;
    assert(qc <= bc) by (nonlinear_arith)
        requires
            t0 <= t1,
            t1 > 0,
            (qc - ac) * t1 == (bc - ac) * t0,
            ac < bc,
    ;
    assert(qc == ac ==> t0 == 0) by (nonlinear_arith)
        requires
            (qc - ac) * t1 == (bc - ac) * t0,
            ac < bc,
    ;
    assert(qc == bc ==> t0 == t1) by (nonlinear_arith)
        requires
            (qc - ac) * t1 == (bc - ac) * t0,
            ac < bc,
    ;
}

/// At parameter zero a point is the start, at parameter one the end.
proof fn lemma_parameter_ends(qc: int, ac: int, bc: int, t0: int, t1: int)
    requires
        t1 > 0,
        (qc - ac) * t1 == (bc - ac) * t0,
    ensures
        t0 == 0 ==> qc == ac,
        t0 == t1 ==> qc == bc,
{
    assert(t0 == 0 ==> qc == ac) by (nonlinear_arith)
        requires
            t1 > 0,
            (qc - ac) * t1 == (bc - ac) * t0,
    ;
    assert(t0 == t1 ==> qc == bc) by (nonlinear_arith)
        requires
            t1 > 0,
            (qc - ac) * t1 == (bc - ac) * t0,
    ;
}

/// The position along a segment of distinct ends orders its points from
/// the start to the end, and only the ends sit at the extremes.
proof fn lemma_along_bounds(a: Point64, b: Point64, q: Point64)
    requires
        a != b,
        on_segment64(a, b, q),
    ensures
        along_key(a, a, b) <= along_key(q, a, b) <= along_key(b, a, b),
        along_key(q, a, b) == along_key(a, a, b) ==> q == a,
        along_key(q, a, b) == along_key(b, a, b) ==> q == b,
{
    let (t0, t1) = lemma_segment_parameter64(a, b, q);
    let (qx, ax, bx, qy, ay, by) = (q.x as int, a.x as int, b.x as int, q.y as int, a.y as int, b.y as int);
    if dominant_x(a, b) {
        assert(ax != bx);
        if bx < ax {
            assert((-qx - -ax) * t1 == (-bx - -ax) * t0) by (nonlinear_arith)
                requires
                    (qx - ax) * t1 == (bx - ax) * t0,
            ;
            lemma_parameter_order(-qx, -ax, -bx, t0, t1);
        } else {
            lemma_parameter_order(qx, ax, bx, t0, t1);
        }
    } else {
        assert(ay != by);
        if by < ay {
            assert((-qy - -ay) * t1 == (-by - -ay) * t0) by (nonlinear_arith)
                requires
                    (qy - ay) * t1 == (by - ay) * t0,
            ;
            lemma_parameter_order(-qy, -ay, -by, t0, t1);
        } else {
            lemma_parameter_order(qy, ay, by, t0, t1);
        }
    }
    lemma_parameter_ends(qx, ax, bx, t0, t1);
    lemma_parameter_ends(qy, ay, by, t0, t1);
}

/// Positions along a segment never fall between neighbours of a sorted
/// sequence.
proof fn lemma_along_chain(sorted: Seq<Point64>, a: Point64, b: Point64, i: int, j: int)
    requires
        forall|k: int| 0 < k < sorted.len() ==> along_key(sorted[k - 1], a, b) <= along_key(#[trigger] sorted[k], a, b),
        0 <= i <= j < sorted.len(),
    ensures
        along_key(sorted[i], a, b) <= along_key(sorted[j], a, b),
    decreases j - i,
{
    if i < j {
        lemma_along_chain(sorted, a, b, i, j - 1);
    }
}

/// The points of a segment sorted along it run from its start to its end.
proof fn lemma_sorted_ends(sorted: Seq<Point64>, a: Point64, b: Point64)
    requires
        a != b,
        forall|k: int| 0 <= k < sorted.len() ==> on_segment64(a, b, #[trigger] sorted[k]),
        forall|k: int| 0 < k < sorted.len() ==> along_key(sorted[k - 1], a, b) <= along_key(#[trigger] sorted[k], a, b),
        sorted.contains(a),
        sorted.contains(b),
    ensures
        sorted.len() >= 2,
        sorted[0] == a,
        sorted.last() == b,
{
    let i = choose|i: int| 0 <= i < sorted.len() && sorted[i] == a;
    let j = choose|j: int| 0 <= j < sorted.len() && sorted[j] == b;
    let n = sorted.len() - 1;
    lemma_along_chain(sorted, a, b, 0, i);
    lemma_along_chain(sorted, a, b, j, n);
    lemma_along_bounds(a, b, sorted[0]);
    lemma_along_bounds(a, b, sorted[n]);
}

/// Whether `point` is a fragment's start or end.
pub open spec fn fragment64_point(fragments: Seq<OpenFragment64>, point: Point64) -> bool {
    exists|k: int| 0 <= k < fragments.len() && (#[trigger] fragments[k].start == point || fragments[k].end == point)
}

/// Whether every point of the output paths from index `first` on is a
/// fragment's start or end.
pub open spec fn lines_from_fragments(output: Seq<Vec<Point64>>, first: int, fragments: Seq<OpenFragment64>) -> bool {
    forall|i: int, j: int|
        first <= i < output.len() && 0 <= j < output[i]@.len() ==> fragment64_point(fragments, #[trigger] output[i]@[j])
}

/// Some line from position `from` on holds `point`.
pub open spec fn point64_emitted(lines: Seq<Vec<Point64>>, from: int, point: Point64) -> bool {
    exists|i: int| from <= i < lines.len() && (#[trigger] lines[i])@.contains(point)
}

/// Whether every point of the polyline is a fragment's start or end.
spec fn points_from_fragments(points: Seq<Point64>, fragments: Seq<OpenFragment64>) -> bool {
    forall|j: int| 0 <= j < points.len() ==> fragment64_point(fragments, #[trigger] points[j])
}

/// The polylines made of runs of consecutive kept fragments, read in order,
/// with the run still open at the end: a kept fragment opens a run with its
/// start and end, or extends the open run by its end; any other fragment
/// closes the open run, which is emitted when it holds two points or more.
pub open spec fn fragment_runs64(fragments: Seq<OpenFragment64>) -> (Seq<Seq<Point64>>, Seq<Point64>)
    decreases fragments.len(),
{
    if fragments.len() == 0 {
        (Seq::empty(), Seq::empty())
    } else {
        let (lines, current) = fragment_runs64(fragments.drop_last());
        let f = fragments.last();
        if f.keep == Some(true) {
            (lines, if current.len() == 0 {
                seq![f.start, f.end]
            } else {
                current.push(f.end)
            })
        } else if current.len() >= 2 {
            (lines.push(current), Seq::empty())
        } else {
            (lines, Seq::empty())
        }
    }
}

/// The maximal runs of kept fragments as polylines, in order.
pub open spec fn kept_runs64(fragments: Seq<OpenFragment64>) -> Seq<Seq<Point64>> {
    let (lines, current) = fragment_runs64(fragments);
    if current.len() >= 2 {
        lines.push(current)
    } else {
        lines
    }
}

pub fn append_open_fragments64(fragments: &Vec<OpenFragment64>, output: &mut Vec<Vec<Point64>>)
    requires
        forall|i: int| 0 <= i < old(output)@.len() ==> (#[trigger] old(output)@[i])@.len() >= 2,
    ensures
        forall|i: int| 0 <= i < final(output)@.len() ==> (#[trigger] final(output)@[i])@.len() >= 2,
        forall|i: int| 0 <= i < old(output)@.len() ==> #[trigger] final(output)@[i] == old(output)@[i],
        final(output)@.len() >= old(output)@.len(),
        lines_from_fragments(final(output)@, old(output)@.len() as int, fragments@),
        forall|k: int|
            0 <= k < fragments@.len() && (#[trigger] fragments@[k]).keep == Some(true) ==> point64_emitted(
                final(output)@,
                old(output)@.len() as int,
                fragments@[k].end,
            ),
        views(final(output)@) == views(old(output)@) + kept_runs64(fragments@),
{
    let mut current: Vec<Point64> = Vec::new();
    let mut index: usize = 0;
    let ghost start_output = output@;
    proof {
        assert(fragments@.subrange(0, 0) =~= Seq::<OpenFragment64>::empty());
        assert(views(output@) =~= views(start_output) + Seq::<Seq<Point64>>::empty());
    }
    while index < fragments.len()
        invariant
            index <= fragments@.len(),
            views(output@) == views(start_output) + fragment_runs64(fragments@.subrange(0, index as int)).0,
            current@ == fragment_runs64(fragments@.subrange(0, index as int)).1,
            forall|i: int| 0 <= i < output@.len() ==> (#[trigger] output@[i])@.len() >= 2,
            forall|i: int| 0 <= i < start_output.len() ==> #[trigger] output@[i] == start_output[i],
            output@.len() >= start_output.len(),
            lines_from_fragments(output@, start_output.len() as int, fragments@),
            points_from_fragments(current@, fragments@),
            current@.len() == 0 || current@.len() >= 2,
            forall|k: int|
                0 <= k < index && (#[trigger] fragments@[k]).keep == Some(true) ==> point64_emitted(
                    output@,
                    start_output.len() as int,
                    fragments@[k].end,
                ) || current@.contains(fragments@[k].end),
        decreases fragments@.len() - index,
    {
        let fragment = fragments[index];
        let ghost runs_before = views(output@);
        proof {
            assert(fragments@.subrange(0, index + 1).drop_last() =~= fragments@.subrange(0, index as int));
            assert(fragments@.subrange(0, index + 1).last() == fragment);
        }
        match fragment.keep {
            Some(true) => {
                let ghost before = current@;
                if current.len() == 0 {
                    current.push(fragment.start);
                }
                let ghost middle = current@;
                current.push(fragment.end);
                proof {
                    if before.len() == 0 {
                        assert(current@ =~= seq![fragment.start, fragment.end]);
                    } else {
                        assert(current@ =~= before.push(fragment.end));
                    }
                    assert(fragment64_point(fragments@, fragments@[index as int].start));
                    assert(fragment64_point(fragments@, fragments@[index as int].end));
                    assert forall|j: int| 0 <= j < current@.len() implies fragment64_point(
                        fragments@,
                        #[trigger] current@[j],
                    ) by {
                        if j < before.len() {
                            assert(current@[j] == before[j]);
                        } else if j < middle.len() {
                            assert(current@[j] == middle[j]);
                        }
                    }
                    assert forall|k: int|
                        0 <= k < index + 1 && (#[trigger] fragments@[k]).keep == Some(true) implies point64_emitted(
                            output@,
                            start_output.len() as int,
                            fragments@[k].end,
                        ) || current@.contains(fragments@[k].end) by {
                        if k < index {
                            if before.contains(fragments@[k].end) {
                                let j = choose|j: int| 0 <= j < before.len() && before[j] == fragments@[k].end;
                                assert(current@[j] == before[j]);
                            }
                        } else {
                            assert(current@[current@.len() - 1] == fragments@[k].end);
                        }
                    }
                }
            },
            _ => {
                if current.len() >= 2 {
                    let ghost before = output@;
                    let ghost pushed = current;
                    output.push(current);
                    proof {
                        assert(views(output@) =~= views(before).push(pushed@));
                        assert(views(start_output) + fragment_runs64(fragments@.subrange(0, index + 1)).0 =~= (views(
                            start_output,
                        ) + fragment_runs64(fragments@.subrange(0, index as int)).0).push(pushed@));
                        assert forall|i: int, j: int|
                            start_output.len() <= i < output@.len() && 0 <= j < output@[i]@.len() implies fragment64_point(
                            fragments@,
                            #[trigger] output@[i]@[j],
                        ) by {
                            if i < before.len() {
                                assert(output@[i] == before[i]);
                            }
                        }
                        assert forall|k: int|
                            0 <= k < index && (#[trigger] fragments@[k]).keep == Some(true) implies point64_emitted(
                                output@,
                                start_output.len() as int,
                                fragments@[k].end,
                            ) by {
                            if point64_emitted(before, start_output.len() as int, fragments@[k].end) {
                                let i = choose|i: int|
                                    start_output.len() <= i < before.len() && (#[trigger] before[i])@.contains(fragments@[k].end);
                                assert(output@[i] == before[i]);
                            } else {
                                assert(output@[before.len() as int] == pushed);
                            }
                        }
                    }
                }
                current = Vec::new();
            },
        }
        index += 1;
    }
    proof {
        assert(fragments@.subrange(0, fragments@.len() as int) =~= fragments@);
    }
    if current.len() >= 2 {
        let ghost before = output@;
        let ghost pushed = current;
        output.push(current);
        proof {
            assert(views(output@) =~= views(before).push(pushed@));
            assert(views(start_output) + kept_runs64(fragments@) =~= (views(start_output) + fragment_runs64(
                fragments@,
            ).0).push(pushed@));
            assert forall|i: int, j: int|
                start_output.len() <= i < output@.len() && 0 <= j < output@[i]@.len() implies fragment64_point(
                fragments@,
                #[trigger] output@[i]@[j],
            ) by {
                if i < before.len() {
                    assert(output@[i] == before[i]);
                }
            }
            assert forall|k: int|
                0 <= k < fragments@.len() && (#[trigger] fragments@[k]).keep == Some(true) implies point64_emitted(
                    output@,
                    start_output.len() as int,
                    fragments@[k].end,
                ) by {
                if point64_emitted(before, start_output.len() as int, fragments@[k].end) {
                    let i = choose|i: int|
                        start_output.len() <= i < before.len() && (#[trigger] before[i])@.contains(fragments@[k].end);
                    assert(output@[i] == before[i]);
                } else {
                    assert(output@[before.len() as int] == pushed);
                }
            }
        }
    }
}

/// Whether no two consecutive points of `path` are equal.
fn has_no_repeats(path: &Vec<Point64>) -> (result: bool)
    ensures
        result == crate::geometry::no_adjacent_duplicates(path@),
{
    let mut index: usize = 1;
    while index < path.len()
        invariant
            1 <= index,
            forall|i: int| 0 <= i < index - 1 && i < path@.len() - 1 ==> #[trigger] path@[i] != path@[i + 1],
        decreases path@.len() - index,
    {
        if path[index - 1] == path[index] {
            assert(path@[index - 1] == path@[(index - 1) + 1]);
            return false;
        }
        index += 1;
    }
    true
}

fn copy_points(path: &Vec<Point64>) -> (copied: Vec<Point64>)
    ensures
        copied@ == path@,
{
    let mut copied: Vec<Point64> = Vec::new();
    let mut index: usize = 0;
    while index < path.len()
        invariant
            index <= path@.len(),
            copied@ == path@.subrange(0, index as int),
        decreases path@.len() - index,
    {
        copied.push(path[index]);
        index += 1;
        proof {
            assert(copied@ =~= path@.subrange(0, index as int));
        }
    }
    proof {
        assert(path@.subrange(0, path@.len() as int) =~= path@);
    }
    copied
}

/// Whether both ends of the fragment lie on one segment of the path.
pub open spec fn fragment_in_segment64(fragment: OpenFragment64, path: Seq<Point64>) -> bool {
    exists|w: int|
        0 < w < path.len() && #[trigger] on_segment64(path[w - 1], path[w], fragment.start) && on_segment64(
            path[w - 1],
            path[w],
            fragment.end,
        )
}

/// The fragments run in order along the open path: from its first point to
/// its last, each starting where the one before ends, each within one
/// segment. A path of fewer than two points has none.
pub open spec fn fragments_cover64(fragments: Seq<OpenFragment64>, path: Seq<Point64>) -> bool {
    if path.len() < 2 {
        fragments.len() == 0
    } else {
        &&& fragments.len() > 0
        &&& fragments[0].start == path[0]
        &&& fragments.last().end == path.last()
        &&& forall|k: int| 0 < k < fragments.len() ==> (#[trigger] fragments[k]).start == fragments[k - 1].end
        &&& forall|k: int| 0 <= k < fragments.len() ==> fragment_in_segment64(#[trigger] fragments[k], path)
    }
}

/// Every fragment carries a decision, and it is the one the operation's
/// rule gives at the fragment's midpoint wherever that rule decides.
pub open spec fn fragments_decided64(
    fragments: Seq<OpenFragment64>,
    closed_subjects: Seq<Vec<Point64>>,
    clips: Seq<Vec<Point64>>,
    clip_type: ClipType,
    fill_rule: FillRule,
) -> bool {
    forall|k: int|
        0 <= k < fragments.len() ==> (#[trigger] fragments[k]).keep is Some && (open_keep64_spec(
            fragments[k].start,
            fragments[k].end,
            closed_subjects,
            clips,
            clip_type,
            fill_rule,
        ) matches Some(keep) ==> fragments[k].keep == Some(keep))
}

/// The kept runs of each path's fragments, path after path.
pub open spec fn runs_of_paths64(fragments: Seq<Seq<OpenFragment64>>) -> Seq<Seq<Point64>>
    decreases fragments.len(),
{
    if fragments.len() == 0 {
        Seq::empty()
    } else {
        runs_of_paths64(fragments.drop_last()) + kept_runs64(fragments.last())
    }
}

/// The clipped lines are, path after path, the maximal runs of kept
/// fragments of a decided cover of each normalized open path, cut at every
/// point where it meets a boundary edge.
pub open spec fn open_clip_result64(
    lines: Seq<Seq<Point64>>,
    open_paths: Seq<Vec<Point64>>,
    closed_subjects: Seq<Vec<Point64>>,
    clips: Seq<Vec<Point64>>,
    clip_type: ClipType,
    fill_rule: FillRule,
) -> bool {
    exists|fragments: Seq<Seq<OpenFragment64>>|
        #[trigger] runs_of_paths64(fragments) == lines && fragments.len() == open_paths.len() && forall|p: int|
            0 <= p < fragments.len() ==> path_fragments_ok64(
                #[trigger] fragments[p],
                normalize_spec(open_paths[p]@, PathKind::Open),
                closed_subjects,
                clips,
                clip_type,
                fill_rule,
            )
}

/// The fragments of one normalized open path cover it in order, carry the
/// rule's decisions, and are cut at every point where the path meets a
/// boundary edge.
pub open spec fn path_fragments_ok64(
    fragments: Seq<OpenFragment64>,
    path: Seq<Point64>,
    closed_subjects: Seq<Vec<Point64>>,
    clips: Seq<Vec<Point64>>,
    clip_type: ClipType,
    fill_rule: FillRule,
) -> bool {
    &&& fragments_cover64(fragments, path)
    &&& fragments_decided64(fragments, closed_subjects, clips, clip_type, fill_rule)
    &&& boundary_runs_resolved64(fragments, closed_subjects, clips, clip_type, fill_rule)
    &&& cut_at_boundary64(fragments, path, open_boundary64(closed_subjects, clips, clip_type), path.len() as int)
}

/// The fragments with the rule's own decision at each midpoint, undecided
/// where the midpoint lies on a boundary.
pub open spec fn reclassified64(
    fragments: Seq<OpenFragment64>,
    closed_subjects: Seq<Vec<Point64>>,
    clips: Seq<Vec<Point64>>,
    clip_type: ClipType,
    fill_rule: FillRule,
) -> Seq<OpenFragment64> {
    fragments.map_values(
        |f: OpenFragment64|
            OpenFragment64 {
                start: f.start,
                end: f.end,
                keep: open_keep64_spec(f.start, f.end, closed_subjects, clips, clip_type, fill_rule),
            },
    )
}

/// Every fragment's decision is the rule's where the rule decides, and the
/// boundary-run resolution of the rule's decisions elsewhere.
pub open spec fn boundary_runs_resolved64(
    fragments: Seq<OpenFragment64>,
    closed_subjects: Seq<Vec<Point64>>,
    clips: Seq<Vec<Point64>>,
    clip_type: ClipType,
    fill_rule: FillRule,
) -> bool {
    forall|i: int|
        0 <= i < fragments.len() ==> (#[trigger] fragments[i]).keep == resolved_keep64(
            reclassified64(fragments, closed_subjects, clips, clip_type, fill_rule),
            i,
        )
}

/// Outside a union the closed subjects play no part in clipping a path's
/// fragments.
proof fn lemma_fragments_ok_ignore_closed(
    fragments: Seq<OpenFragment64>,
    path: Seq<Point64>,
    first: Seq<Vec<Point64>>,
    second: Seq<Vec<Point64>>,
    clips: Seq<Vec<Point64>>,
    clip_type: ClipType,
    fill_rule: FillRule,
)
    requires
        clip_type != ClipType::Union,
    ensures
        path_fragments_ok64(fragments, path, first, clips, clip_type, fill_rule) == path_fragments_ok64(
            fragments,
            path,
            second,
            clips,
            clip_type,
            fill_rule,
        ),
{
    assert(open_boundary64(first, clips, clip_type) == open_boundary64(second, clips, clip_type));
    assert forall|k: int| 0 <= k < fragments.len() implies open_keep64_spec(
        (#[trigger] fragments[k]).start,
        fragments[k].end,
        first,
        clips,
        clip_type,
        fill_rule,
    ) == open_keep64_spec(fragments[k].start, fragments[k].end, second, clips, clip_type, fill_rule) by {
    }
    assert(fragments_decided64(fragments, first, clips, clip_type, fill_rule) == fragments_decided64(
        fragments,
        second,
        clips,
        clip_type,
        fill_rule,
    ));
    assert(reclassified64(fragments, first, clips, clip_type, fill_rule) =~= reclassified64(
        fragments,
        second,
        clips,
        clip_type,
        fill_rule,
    ));
}

/// Outside a union, open lines are cut and kept by the clips alone: what
/// the clipped lines may be does not depend on the closed subjects.
pub proof fn law_open_clip_ignores_closed_subjects(
    lines: Seq<Seq<Point64>>,
    open_paths: Seq<Vec<Point64>>,
    first: Seq<Vec<Point64>>,
    second: Seq<Vec<Point64>>,
    clips: Seq<Vec<Point64>>,
    clip_type: ClipType,
    fill_rule: FillRule,
)
    requires
        clip_type != ClipType::Union,
    ensures
        open_clip_result64(lines, open_paths, first, clips, clip_type, fill_rule) == open_clip_result64(
            lines,
            open_paths,
            second,
            clips,
            clip_type,
            fill_rule,
        ),
{
    if open_clip_result64(lines, open_paths, first, clips, clip_type, fill_rule) {
        let fragments = choose|fragments: Seq<Seq<OpenFragment64>>|
            #[trigger] runs_of_paths64(fragments) == lines && fragments.len() == open_paths.len() && forall|p: int|
                0 <= p < fragments.len() ==> path_fragments_ok64(
                    #[trigger] fragments[p],
                    normalize_spec(open_paths[p]@, PathKind::Open),
                    first,
                    clips,
                    clip_type,
                    fill_rule,
                );
        assert forall|p: int| 0 <= p < fragments.len() implies path_fragments_ok64(
            #[trigger] fragments[p],
            normalize_spec(open_paths[p]@, PathKind::Open),
            second,
            clips,
            clip_type,
            fill_rule,
        ) by {
            lemma_fragments_ok_ignore_closed(fragments[p], normalize_spec(open_paths[p]@, PathKind::Open), first, second, clips, clip_type, fill_rule);
        }
    }
    if open_clip_result64(lines, open_paths, second, clips, clip_type, fill_rule) {
        let fragments = choose|fragments: Seq<Seq<OpenFragment64>>|
            #[trigger] runs_of_paths64(fragments) == lines && fragments.len() == open_paths.len() && forall|p: int|
                0 <= p < fragments.len() ==> path_fragments_ok64(
                    #[trigger] fragments[p],
                    normalize_spec(open_paths[p]@, PathKind::Open),
                    second,
                    clips,
                    clip_type,
                    fill_rule,
                );
        assert forall|p: int| 0 <= p < fragments.len() implies path_fragments_ok64(
            #[trigger] fragments[p],
            normalize_spec(open_paths[p]@, PathKind::Open),
            first,
            clips,
            clip_type,
            fill_rule,
        ) by {
            lemma_fragments_ok_ignore_closed(fragments[p], normalize_spec(open_paths[p]@, PathKind::Open), first, second, clips, clip_type, fill_rule);
        }
    }
}

/// Each unresolved fragment's decision is the rule's, and it is undecided
/// exactly where the rule does not decide.
spec fn fragments_classified64(
    fragments: Seq<OpenFragment64>,
    closed_subjects: Seq<Vec<Point64>>,
    clips: Seq<Vec<Point64>>,
    clip_type: ClipType,
    fill_rule: FillRule,
) -> bool {
    forall|k: int|
        0 <= k < fragments.len() ==> (#[trigger] fragments[k]).keep == open_keep64_spec(
            fragments[k].start,
            fragments[k].end,
            closed_subjects,
            clips,
            clip_type,
            fill_rule,
        )
}

/// The fragments so far chain from the path's first point.
spec fn fragments_chain64(fragments: Seq<OpenFragment64>, path: Seq<Point64>) -> bool {
    &&& fragments.len() > 0 ==> fragments[0].start == path[0]
    &&& forall|k: int| 0 < k < fragments.len() ==> (#[trigger] fragments[k]).start == fragments[k - 1].end
    &&& forall|k: int| 0 <= k < fragments.len() ==> fragment_in_segment64(#[trigger] fragments[k], path)
}

/// With no clips (and, for a union, no closed subjects) the rule keeps a
/// fragment exactly when the operation is not an intersection.
proof fn lemma_unclipped_keep64(
    a: Point64,
    b: Point64,
    closed_subjects: Seq<Vec<Point64>>,
    clips: Seq<Vec<Point64>>,
    clip_type: ClipType,
    fill_rule: FillRule,
)
    requires
        clips.len() == 0,
        clip_type != ClipType::Union || closed_subjects.len() == 0,
    ensures
        open_keep64_spec(a, b, closed_subjects, clips, clip_type, fill_rule) == Some(clip_type != ClipType::Intersection),
{
    assert(midpoint_winding(a, b, clips) == Some(0int));
    assert(!winding_contains_spec(0, fill_rule));
    if clip_type == ClipType::Union {
        assert(midpoint_winding(a, b, closed_subjects) == Some(0int));
    }
}

/// The normalized open paths of two points or more among the first `n`,
/// in order.
pub open spec fn whole_open_paths64(paths: Seq<Vec<Point64>>, n: nat) -> Seq<Seq<Point64>>
    decreases n,
{
    if n == 0 {
        Seq::empty()
    } else {
        let path = normalize_spec(paths[n - 1]@, PathKind::Open);
        whole_open_paths64(paths, (n - 1) as nat) + if path.len() >= 2 {
            seq![path]
        } else {
            Seq::empty()
        }
    }
}

/// The open lines when there is nothing to cut them against: with no clips
/// (and, for a union, no closed subjects), an intersection keeps nothing
/// and every other operation keeps each normalized line whole.
pub open spec fn unclipped_lines64(open_paths: Seq<Vec<Point64>>, clip_type: ClipType) -> Seq<Seq<Point64>> {
    if clip_type == ClipType::Intersection {
        Seq::empty()
    } else {
        whole_open_paths64(open_paths, open_paths.len())
    }
}

/// Fragments that are the path's segments, in order, all with the same
/// decision.
spec fn segment_fragments64(fragments: Seq<OpenFragment64>, path: Seq<Point64>, keep: bool) -> bool {
    &&& fragments.len() < path.len()
    &&& forall|f: int|
        0 <= f < fragments.len() ==> (#[trigger] fragments[f]).start == path[f] && fragments[f].end == path[f + 1]
            && fragments[f].keep == Some(keep)
}

/// The runs of a path's segments, all kept, are the path up to the last
/// segment's end; all dropped, they are nothing.
proof fn lemma_segment_runs64(fragments: Seq<OpenFragment64>, path: Seq<Point64>, keep: bool)
    requires
        segment_fragments64(fragments, path, keep),
    ensures
        fragment_runs64(fragments).0 == Seq::<Seq<Point64>>::empty(),
        keep && fragments.len() > 0 ==> fragment_runs64(fragments).1 == path.subrange(0, fragments.len() as int + 1),
        !keep || fragments.len() == 0 ==> fragment_runs64(fragments).1 == Seq::<Point64>::empty(),
    decreases fragments.len(),
{
    if fragments.len() > 0 {
        let n = fragments.len() as int;
        assert(segment_fragments64(fragments.drop_last(), path, keep)) by {
            assert forall|f: int| 0 <= f < n - 1 implies (#[trigger] fragments.drop_last()[f]).start == path[f]
                && fragments.drop_last()[f].end == path[f + 1] && fragments.drop_last()[f].keep == Some(keep) by {
                assert(fragments.drop_last()[f] == fragments[f]);
            }
        }
        lemma_segment_runs64(fragments.drop_last(), path, keep);
        assert(fragments.last() == fragments[n - 1]);
        if keep {
            if n == 1 {
                assert(path.subrange(0, 2) =~= seq![path[0], path[1]]);
            } else {
                assert(path.subrange(0, n + 1) =~= path.subrange(0, n).push(path[n]));
            }
        }
    }
}

/// Appending the next segment, with the same decision, keeps the fragments
/// the path's segments.
proof fn lemma_push_segment64(before: Seq<OpenFragment64>, after: Seq<OpenFragment64>, path: Seq<Point64>, keep: bool)
    requires
        segment_fragments64(before, path, keep),
        after.len() == before.len() + 1,
        after.len() < path.len(),
        forall|f: int| 0 <= f < before.len() ==> #[trigger] after[f] == before[f],
        after.last().start == path[before.len() as int],
        after.last().end == path[before.len() as int + 1],
        after.last().keep == Some(keep),
    ensures
        segment_fragments64(after, path, keep),
{
    assert forall|f: int| 0 <= f < after.len() implies (#[trigger] after[f]).start == path[f] && after[f].end == path[f
        + 1] && after[f].keep == Some(keep) by {
        if f < before.len() {
            assert(after[f] == before[f]);
        }
    }
}

/// The boundary edges open lines are cut against: those of the clips, and
/// for a union first those of the closed subjects.
pub open spec fn open_boundary64(
    closed_subjects: Seq<Vec<Point64>>,
    clips: Seq<Vec<Point64>>,
    clip_type: ClipType,
) -> Seq<(Point64, Point64)> {
    (if clip_type == ClipType::Union {
        paths_edges64(closed_subjects, closed_subjects.len() as nat)
    } else {
        Seq::empty()
    }) + paths_edges64(clips, clips.len() as nat)
}

/// Every split of the segment `a -> b` at a boundary edge is certified.
pub open spec fn segment_splits_certified(a: Point64, b: Point64, boundary: Seq<(Point64, Point64)>) -> bool {
    forall|e: int| 0 <= e < boundary.len() ==> #[trigger] split64_certified(a, b, boundary[e].0, boundary[e].1)
}

/// The midpoint test of any two points of the segment `a -> b` fits in
/// `i128`, against the clips and, for a union, the closed subjects.
pub open spec fn segment_midpoints_fit(
    a: Point64,
    b: Point64,
    closed_subjects: Seq<Vec<Point64>>,
    clips: Seq<Vec<Point64>>,
    clip_type: ClipType,
) -> bool {
    forall|q: Point64, r: Point64|
        on_segment64(a, b, q) && on_segment64(a, b, r) ==> #[trigger] midpoint_fits(q, r, clips) && (clip_type
            == ClipType::Union ==> midpoint_fits(q, r, closed_subjects))
}

/// Every segment of the path splits and classifies with certified `i128`
/// arithmetic.
pub open spec fn path_certifiable64(
    path: Seq<Point64>,
    closed_subjects: Seq<Vec<Point64>>,
    clips: Seq<Vec<Point64>>,
    clip_type: ClipType,
) -> bool {
    forall|w: int|
        0 < w < path.len() ==> #[trigger] segment_splits_certified(
            path[w - 1],
            path[w],
            open_boundary64(closed_subjects, clips, clip_type),
        ) && segment_midpoints_fit(path[w - 1], path[w], closed_subjects, clips, clip_type)
}

/// Every normalized open path clips with certified `i128` arithmetic: each
/// crossing with a boundary edge is an integer point, and every product of
/// the split and midpoint tests fits.
pub open spec fn open_clip_certifiable64(
    open_paths: Seq<Vec<Point64>>,
    closed_subjects: Seq<Vec<Point64>>,
    clips: Seq<Vec<Point64>>,
    clip_type: ClipType,
) -> bool {
    forall|p: int|
        0 <= p < open_paths.len() ==> path_certifiable64(
            normalize_spec((#[trigger] open_paths[p])@, PathKind::Open),
            closed_subjects,
            clips,
            clip_type,
        )
}

/// Whether `q` is where the segment `a -> b` meets the boundary edge
/// `s -> e`: their single crossing, or, for collinear edges, an end of the
/// boundary edge that lies on the segment.
pub open spec fn boundary_cut64(a: Point64, b: Point64, s: Point64, e: Point64, q: Point64) -> bool {
    let first = (b.x - a.x, b.y - a.y);
    let second = (e.x - s.x, e.y - s.y);
    let between = (s.x - a.x, s.y - a.y);
    let d = cross_of(first, second);
    let n = cross_of(between, second);
    ||| d != 0 && unit_ratio(n, d) && unit_ratio(cross_of(between, first), d) && (q.x - a.x) * d == first.0 * n && (
    q.y - a.y) * d == first.1 * n
    ||| d == 0 && cross_of(between, first) == 0 && (q == s || q == e) && crate::geometry::on_segment_spec(q, a, b)
}

/// Every point where a segment of the path meets a boundary edge is the
/// start or end of a fragment.
pub open spec fn cut_at_boundary64(
    fragments: Seq<OpenFragment64>,
    path: Seq<Point64>,
    boundary: Seq<(Point64, Point64)>,
    segments: int,
) -> bool {
    forall|w: int, e: int, q: Point64|
        0 < w < segments && w < path.len() && 0 <= e < boundary.len() && #[trigger] boundary_cut64(
            path[w - 1],
            path[w],
            boundary[e].0,
            boundary[e].1,
            q,
        ) ==> fragment64_point(fragments, q)
}

/// Appending the pieces of segment `w`, cut at every boundary point, keeps
/// the fragments cut at every boundary point of the segments so far.
proof fn lemma_cut_append64(
    before: Seq<OpenFragment64>,
    added: Seq<OpenFragment64>,
    after: Seq<OpenFragment64>,
    path: Seq<Point64>,
    boundary: Seq<(Point64, Point64)>,
    w: int,
)
    requires
        after == before + added,
        0 < w < path.len(),
        cut_at_boundary64(before, path, boundary, w),
        forall|e: int, q: Point64|
            0 <= e < boundary.len() && #[trigger] boundary_cut64(path[w - 1], path[w], boundary[e].0, boundary[e].1, q)
                ==> fragment64_point(added, q),
    ensures
        cut_at_boundary64(after, path, boundary, w + 1),
{
    assert forall|v: int, e: int, q: Point64|
        0 < v < w + 1 && v < path.len() && 0 <= e < boundary.len() && #[trigger] boundary_cut64(
            path[v - 1],
            path[v],
            boundary[e].0,
            boundary[e].1,
            q,
        ) implies fragment64_point(after, q) by {
        if v < w {
            assert(fragment64_point(before, q));
            lemma_point_shifted64(before, after, 0, q);
        } else {
            assert(fragment64_point(added, q));
            lemma_point_shifted64(added, after, before.len() as int, q);
        }
    }
}

/// Fragments with the same starts and ends are cut at the same points.
proof fn lemma_cut_same_ends64(
    before: Seq<OpenFragment64>,
    after: Seq<OpenFragment64>,
    path: Seq<Point64>,
    boundary: Seq<(Point64, Point64)>,
    w: int,
)
    requires
        after.len() == before.len(),
        forall|k: int| 0 <= k < before.len() ==> #[trigger] after[k].start == before[k].start,
        forall|k: int| 0 <= k < before.len() ==> #[trigger] after[k].end == before[k].end,
        cut_at_boundary64(before, path, boundary, w),
    ensures
        cut_at_boundary64(after, path, boundary, w),
{
    assert forall|v: int, e: int, q: Point64|
        0 < v < w && v < path.len() && 0 <= e < boundary.len() && #[trigger] boundary_cut64(
            path[v - 1],
            path[v],
            boundary[e].0,
            boundary[e].1,
            q,
        ) implies fragment64_point(after, q) by {
        assert(fragment64_point(before, q));
        lemma_point_same_ends64(before, after, q);
    }
}

/// A fragment end stays a fragment end when every fragment keeps its ends.
proof fn lemma_point_same_ends64(before: Seq<OpenFragment64>, after: Seq<OpenFragment64>, q: Point64)
    requires
        fragment64_point(before, q),
        after.len() == before.len(),
        forall|k: int| 0 <= k < before.len() ==> #[trigger] after[k].start == before[k].start,
        forall|k: int| 0 <= k < before.len() ==> #[trigger] after[k].end == before[k].end,
    ensures
        fragment64_point(after, q),
{
    let k = choose|k: int| 0 <= k < before.len() && (#[trigger] before[k].start == q || before[k].end == q);
    assert(after[k].start == before[k].start);
    assert(after[k].end == before[k].end);
}

/// A fragment end stays a fragment end in a sequence that holds the
/// fragments from position `offset` on.
proof fn lemma_point_shifted64(part: Seq<OpenFragment64>, whole: Seq<OpenFragment64>, offset: int, q: Point64)
    requires
        fragment64_point(part, q),
        0 <= offset,
        offset + part.len() <= whole.len(),
        forall|i: int| 0 <= i < part.len() ==> whole[offset + i] == #[trigger] part[i],
    ensures
        fragment64_point(whole, q),
{
    let k = choose|k: int| 0 <= k < part.len() && (#[trigger] part[k].start == q || part[k].end == q);
    assert(whole[offset + k] == part[k]);
}

/// Resolving boundary runs keeps the fragments' ends, so their cover and
/// cuts stand, and turns their classification into decisions.
proof fn lemma_resolved64(
    unresolved: Seq<OpenFragment64>,
    resolved: Seq<OpenFragment64>,
    path: Seq<Point64>,
    closed_subjects: Seq<Vec<Point64>>,
    clips: Seq<Vec<Point64>>,
    clip_type: ClipType,
    fill_rule: FillRule,
)
    requires
        path.len() >= 2,
        resolved.len() == unresolved.len(),
        forall|i: int| 0 <= i < resolved.len() ==> (#[trigger] resolved[i]).keep is Some,
        forall|i: int| 0 <= i < unresolved.len() ==> (#[trigger] resolved[i]).start == unresolved[i].start
            && resolved[i].end == unresolved[i].end,
        forall|i: int| 0 <= i < unresolved.len() && unresolved[i].keep is Some ==> (#[trigger] resolved[i]).keep
            == unresolved[i].keep,
        forall|i: int| 0 <= i < unresolved.len() ==> (#[trigger] resolved[i]).keep == resolved_keep64(unresolved, i),
        fragments_on_path64(unresolved, path),
        fragments_chain64(unresolved, path),
        fragments_classified64(unresolved, closed_subjects, clips, clip_type, fill_rule),
        unresolved.len() > 0,
        unresolved.last().end == path.last(),
        cut_at_boundary64(unresolved, path, open_boundary64(closed_subjects, clips, clip_type), path.len() as int),
    ensures
        path_fragments_ok64(resolved, path, closed_subjects, clips, clip_type, fill_rule),
        fragments_on_path64(resolved, path),
{
    let n = resolved.len() as int;
    assert(resolved[0].start == unresolved[0].start);
    assert(resolved[n - 1].end == unresolved[n - 1].end);
    assert forall|f: int| 0 <= f < resolved.len() implies on_open_path64(path, (#[trigger] resolved[f]).start)
        && on_open_path64(path, resolved[f].end) && fragment_in_segment64(resolved[f], path) && (f > 0
        ==> resolved[f].start == resolved[f - 1].end) && (open_keep64_spec(
        resolved[f].start,
        resolved[f].end,
        closed_subjects,
        clips,
        clip_type,
        fill_rule,
    ) matches Some(keep) ==> resolved[f].keep == Some(keep)) by {
        assert(on_open_path64(path, unresolved[f].start) && on_open_path64(path, unresolved[f].end));
        assert(fragment_in_segment64(unresolved[f], path));
        assert(unresolved[f].keep == open_keep64_spec(
            unresolved[f].start,
            unresolved[f].end,
            closed_subjects,
            clips,
            clip_type,
            fill_rule,
        ));
        if f > 0 {
            assert(unresolved[f].start == unresolved[f - 1].end);
            assert(resolved[f - 1].end == unresolved[f - 1].end);
        }
    }
    lemma_cut_same_ends64(
        unresolved,
        resolved,
        path,
        open_boundary64(closed_subjects, clips, clip_type),
        path.len() as int,
    );
    let again = reclassified64(resolved, closed_subjects, clips, clip_type, fill_rule);
    assert forall|i: int| 0 <= i < unresolved.len() implies #[trigger] again[i] == unresolved[i] by {
        assert(unresolved[i].keep == open_keep64_spec(
            unresolved[i].start,
            unresolved[i].end,
            closed_subjects,
            clips,
            clip_type,
            fill_rule,
        ));
    }
    assert(again =~= unresolved);
}

/// Resolving leaves segment fragments that all carry a decision as they
/// are.
proof fn lemma_resolved_segments64(
    unresolved: Seq<OpenFragment64>,
    resolved: Seq<OpenFragment64>,
    path: Seq<Point64>,
    keep: bool,
)
    requires
        resolved.len() == unresolved.len(),
        forall|i: int| 0 <= i < unresolved.len() ==> (#[trigger] resolved[i]).start == unresolved[i].start
            && resolved[i].end == unresolved[i].end,
        forall|i: int| 0 <= i < unresolved.len() && unresolved[i].keep is Some ==> (#[trigger] resolved[i]).keep
            == unresolved[i].keep,
        segment_fragments64(unresolved, path, keep),
    ensures
        segment_fragments64(resolved, path, keep),
{
    assert forall|f: int| 0 <= f < resolved.len() implies (#[trigger] resolved[f]).start == path[f] && resolved[f].end
        == path[f + 1] && resolved[f].keep == Some(keep) by {
        assert(unresolved[f].keep is Some);
    }
}

/// Two points at the same nonzero-denominator crossing are the same point.
proof fn lemma_crossing_unique(a: Point64, p: Point64, q: Point64, d: int, f0: int, f1: int, n: int)
    requires
        d != 0,
        (p.x - a.x) * d == f0 * n,
        (p.y - a.y) * d == f1 * n,
        (q.x - a.x) * d == f0 * n,
        (q.y - a.y) * d == f1 * n,
    ensures
        p == q,
{
    assert(p.x == q.x) by (nonlinear_arith)
        requires
            d != 0,
            (p.x - a.x) * d == (q.x - a.x) * d,
    ;
    assert(p.y == q.y) by (nonlinear_arith)
        requires
            d != 0,
            (p.y - a.y) * d == (q.y - a.y) * d,
    ;
}

/// The pieces of the segment `a -> b`: they run from `a` to `b`, each
/// starting where the one before ends, each on the segment, each with the
/// rule's decision at its midpoint.
pub open spec fn segment_pieces64(
    pieces: Seq<OpenFragment64>,
    a: Point64,
    b: Point64,
    closed_subjects: Seq<Vec<Point64>>,
    clips: Seq<Vec<Point64>>,
    clip_type: ClipType,
    fill_rule: FillRule,
) -> bool {
    &&& pieces.len() > 0
    &&& pieces[0].start == a
    &&& pieces.last().end == b
    &&& forall|k: int| 0 < k < pieces.len() ==> (#[trigger] pieces[k]).start == pieces[k - 1].end
    &&& forall|k: int|
        0 <= k < pieces.len() ==> on_segment64(a, b, (#[trigger] pieces[k]).start) && on_segment64(a, b, pieces[k].end)
            && pieces[k].keep == open_keep64_spec(pieces[k].start, pieces[k].end, closed_subjects, clips, clip_type, fill_rule)
}

/// Appending the pieces of segment `w` keeps the fragments chained, on the
/// path and classified, now ending at the segment's end.
proof fn lemma_append_pieces64(
    before: Seq<OpenFragment64>,
    added: Seq<OpenFragment64>,
    after: Seq<OpenFragment64>,
    path: Seq<Point64>,
    w: int,
    closed_subjects: Seq<Vec<Point64>>,
    clips: Seq<Vec<Point64>>,
    clip_type: ClipType,
    fill_rule: FillRule,
)
    requires
        after == before + added,
        0 < w < path.len(),
        segment_pieces64(added, path[w - 1], path[w], closed_subjects, clips, clip_type, fill_rule),
        fragments_on_path64(before, path),
        fragments_chain64(before, path),
        fragments_classified64(before, closed_subjects, clips, clip_type, fill_rule),
        before.len() == 0 ==> w == 1,
        before.len() > 0 ==> before.last().end == path[w - 1],
    ensures
        fragments_on_path64(after, path),
        fragments_chain64(after, path),
        fragments_classified64(after, closed_subjects, clips, clip_type, fill_rule),
        after.len() > 0,
        after.last().end == path[w],
{
    let n = before.len() as int;
    assert(after.last() == added.last());
    assert forall|f: int| 0 <= f < after.len() implies on_open_path64(path, (#[trigger] after[f]).start) && on_open_path64(
        path,
        after[f].end,
    ) && fragment_in_segment64(after[f], path) && (f > 0 ==> after[f].start == after[f - 1].end) && after[f].keep
        == open_keep64_spec(after[f].start, after[f].end, closed_subjects, clips, clip_type, fill_rule) by {
        if f < n {
            assert(after[f] == before[f]);
            if f > 0 {
                assert(after[f - 1] == before[f - 1]);
            }
        } else {
            let k = f - n;
            assert(after[f] == added[k]);
            assert(on_segment64(path[w - 1], path[w], added[k].start));
            assert(on_segment64(path[(w - 1)], path[(w - 1) + 1], added[k].start));
            assert(on_segment64(path[(w - 1)], path[(w - 1) + 1], added[k].end));
            assert(fragment_in_segment64(after[f], path));
            if k > 0 {
                assert(after[f - 1] == added[k - 1]);
            } else if f > 0 {
                assert(after[f - 1] == before[n - 1]);
            }
        }
    }
    if n > 0 {
        assert(after[0] == before[0]);
    } else {
        assert(after[0] == added[0]);
    }
}

/// Cuts the segment `a -> b` at every boundary edge and classifies each
/// piece at its midpoint; `None` when a split or a classification cannot be
/// certified.
#[verifier::spinoff_prover]
pub fn clip_segment64(
    a: Point64,
    b: Point64,
    boundary: &Vec<(Point64, Point64)>,
    closed_subjects: &[Vec<Point64>],
    clips: &[Vec<Point64>],
    clip_type: ClipType,
    fill_rule: FillRule,
) -> (result: Option<Vec<OpenFragment64>>)
    requires
        a != b,
    ensures
        result matches Some(pieces) ==> segment_pieces64(pieces@, a, b, closed_subjects@, clips@, clip_type, fill_rule),
        segment_splits_certified(a, b, boundary@) && segment_midpoints_fit(a, b, closed_subjects@, clips@, clip_type)
            ==> result is Some,
        boundary@.len() == 0 && clips@.len() == 0 && (clip_type != ClipType::Union || closed_subjects@.len() == 0)
            ==> (result matches Some(pieces) && pieces@ == seq![
            OpenFragment64 { start: a, end: b, keep: Some(clip_type != ClipType::Intersection) },
        ]),
        result matches Some(pieces) ==> forall|e: int, q: Point64|
            0 <= e < boundary@.len() && #[trigger] boundary_cut64(a, b, boundary@[e].0, boundary@[e].1, q)
                ==> fragment64_point(pieces@, q),
{
    let ghost certifiable = segment_splits_certified(a, b, boundary@) && segment_midpoints_fit(
        a,
        b,
        closed_subjects@,
        clips@,
        clip_type,
    );
    let ghost unbounded = boundary@.len() == 0 && clips@.len() == 0 && (clip_type != ClipType::Union
        || closed_subjects@.len() == 0);
    let mut points: Vec<Point64> = Vec::new();
    points.push(a);
    points.push(b);
    proof {
        lemma_segment_ends64(a, b);
        assert(points@[0] == a && points@[1] == b);
        assert(points_on_segment64(points@, a, b));
        assert(points@ =~= seq![a, b]);
    }
    let mut e: usize = 0;
    while e < boundary.len()
        invariant
            e <= boundary@.len(),
            points_on_segment64(points@, a, b),
            points@.len() >= 2,
            points@[0] == a,
            points@[1] == b,
            certifiable == (segment_splits_certified(a, b, boundary@) && segment_midpoints_fit(
                a,
                b,
                closed_subjects@,
                clips@,
                clip_type,
            )),
            boundary@.len() == 0 ==> points@ == seq![a, b],
            forall|f: int, q: Point64|
                0 <= f < e && #[trigger] boundary_cut64(a, b, boundary@[f].0, boundary@[f].1, q) ==> points@.contains(q),
        decreases boundary@.len() - e,
    {
        let (start, end) = boundary[e];
        let ghost before = points@;
        if !split_edge_pair64(a, b, start, end, &mut points) {
            proof {
                if certifiable {
                    assert(split64_certified(a, b, boundary@[e as int].0, boundary@[e as int].1));
                }
            }
            return None;
        }
        proof {
            assert forall|i: int| 0 <= i < points@.len() implies on_segment64(a, b, #[trigger] points@[i]) by {
                if i < before.len() {
                    assert(points@[i] == before[i]);
                }
            }
            assert(points@[0] == before[0] && points@[1] == before[1]);
            assert forall|f: int, q: Point64|
                0 <= f < e + 1 && #[trigger] boundary_cut64(a, b, boundary@[f].0, boundary@[f].1, q) implies points@.contains(
                q,
            ) by {
                if f < e {
                    assert(before.contains(q));
                    let i = choose|i: int| 0 <= i < before.len() && before[i] == q;
                    assert(points@[i] == before[i]);
                } else {
                    let first = (b.x - a.x, b.y - a.y);
                    let second = (end.x - start.x, end.y - start.y);
                    let between = (start.x - a.x, start.y - a.y);
                    let d = cross_of(first, second);
                    let n = cross_of(between, second);
                    if d != 0 {
                        let p = choose|p: Point64|
                            #[trigger] points@.contains(p) && (p.x - a.x) * d == first.0 * n && (p.y - a.y) * d
                                == first.1 * n;
                        lemma_crossing_unique(a, p, q, d, first.0, first.1, n);
                    }
                }
            }
        }
        e += 1;
    }
    let sorted = sort_points_on_segment64(&points, a, b);
    proof {
        assert forall|i: int| 0 <= i < sorted@.len() implies on_segment64(a, b, #[trigger] sorted@[i]) by {
            assert(points@.contains(sorted@[i]));
            let j = choose|j: int| 0 <= j < points@.len() && points@[j] == sorted@[i];
            assert(on_segment64(a, b, points@[j]));
        }
        assert(sorted@.contains(points@[0]));
        assert(sorted@.contains(points@[1]));
        lemma_sorted_ends(sorted@, a, b);
        if unbounded {
            assert(sorted@ =~= seq![a, b]);
        }
    }
    let mut pieces: Vec<OpenFragment64> = Vec::new();
    let mut k: usize = 1;
    while k < sorted.len()
        invariant
            1 <= k <= sorted@.len(),
            points_on_segment64(sorted@, a, b),
            sorted@.len() >= 2,
            sorted@[0] == a,
            sorted@.last() == b,
            pieces@.len() == k - 1,
            pieces@.len() > 0 ==> pieces@[0].start == a && pieces@.last().end == sorted@[k - 1],
            forall|i: int| 0 <= i < pieces@.len() ==> (#[trigger] pieces@[i]).start == sorted@[i] && pieces@[i].end == sorted@[i + 1],
            forall|i: int| 0 < i < pieces@.len() ==> (#[trigger] pieces@[i]).start == pieces@[i - 1].end,
            forall|i: int|
                0 <= i < pieces@.len() ==> on_segment64(a, b, (#[trigger] pieces@[i]).start) && on_segment64(
                    a,
                    b,
                    pieces@[i].end,
                ) && pieces@[i].keep == open_keep64_spec(
                    pieces@[i].start,
                    pieces@[i].end,
                    closed_subjects@,
                    clips@,
                    clip_type,
                    fill_rule,
                ),
            certifiable == (segment_splits_certified(a, b, boundary@) && segment_midpoints_fit(
                a,
                b,
                closed_subjects@,
                clips@,
                clip_type,
            )),
            unbounded == (boundary@.len() == 0 && clips@.len() == 0 && (clip_type != ClipType::Union
                || closed_subjects@.len() == 0)),
            unbounded ==> sorted@ == seq![a, b],
        decreases sorted@.len() - k,
    {
        proof {
            assert(on_segment64(a, b, sorted@[k - 1]));
            assert(on_segment64(a, b, sorted@[k as int]));
            if certifiable {
                assert(midpoint_fits(sorted@[k - 1], sorted@[k as int], clips@));
            }
            if unbounded {
                assert(midpoint_fits(sorted@[k - 1], sorted@[k as int], clips@));
                assert(midpoint_fits(sorted@[k - 1], sorted@[k as int], closed_subjects@) || clip_type != ClipType::Union);
            }
        }
        let keep = match open_fragment_keep64(sorted[k - 1], sorted[k], closed_subjects, clips, clip_type, fill_rule) {
            None => return None,
            Some(OpenKeep64::Boundary) => None,
            Some(OpenKeep64::Keep(keep)) => Some(keep),
        };
        let ghost before = pieces@;
        pieces.push(OpenFragment64 { start: sorted[k - 1], end: sorted[k], keep });
        proof {
            assert forall|i: int| 0 <= i < pieces@.len() implies (#[trigger] pieces@[i]).start == sorted@[i] && pieces@[i].end
                == sorted@[i + 1] by {
                if i < before.len() {
                    assert(pieces@[i] == before[i]);
                }
            }
            assert forall|i: int| 0 <= i < pieces@.len() implies on_segment64(a, b, (#[trigger] pieces@[i]).start)
                && on_segment64(a, b, pieces@[i].end) && pieces@[i].keep == open_keep64_spec(
                pieces@[i].start,
                pieces@[i].end,
                closed_subjects@,
                clips@,
                clip_type,
                fill_rule,
            ) && (i > 0 ==> pieces@[i].start == pieces@[i - 1].end) by {
                if i < before.len() {
                    assert(pieces@[i] == before[i]);
                    if i > 0 {
                        assert(pieces@[i - 1] == before[i - 1]);
                    }
                } else if i > 0 {
                    assert(pieces@[i - 1] == before[i - 1]);
                }
            }
            if before.len() > 0 {
                assert(pieces@[0] == before[0]);
            }
            if unbounded {
                lemma_unclipped_keep64(a, b, closed_subjects@, clips@, clip_type, fill_rule);
            }
        }
        k += 1;
    }
    proof {
        if unbounded {
            assert(pieces@ =~= seq![
                OpenFragment64 { start: a, end: b, keep: Some(clip_type != ClipType::Intersection) },
            ]);
        }
        assert forall|e: int, q: Point64|
            0 <= e < boundary@.len() && #[trigger] boundary_cut64(a, b, boundary@[e].0, boundary@[e].1, q) implies fragment64_point(
            pieces@,
            q,
        ) by {
            assert(points@.contains(q));
            let j = choose|j: int| 0 <= j < points@.len() && points@[j] == q;
            assert(sorted@.contains(points@[j]));
            let i = choose|i: int| 0 <= i < sorted@.len() && sorted@[i] == q;
            if i == 0 {
                assert(pieces@[0].start == q);
            } else {
                assert(pieces@[i - 1].end == q);
            }
        }
    }
    Some(pieces)
}

/// Clips open polylines with checked integer arithmetic; `None` when any
/// step cannot be certified.
#[verifier::spinoff_prover]
#[verifier::rlimit(50)]
pub fn try_clip_open_paths64(
    open_paths: &[Vec<Point64>],
    closed_subjects: &[Vec<Point64>],
    clips: &[Vec<Point64>],
    clip_type: ClipType,
    fill_rule: FillRule,
) -> (result: Option<Vec<Vec<Point64>>>)
    ensures
        result matches Some(paths) ==> forall|i: int| 0 <= i < paths@.len() ==> (#[trigger] paths@[i])@.len() >= 2,
        result matches Some(paths) ==> lines64_on_open_paths(paths@, open_paths@),
        clips@.len() == 0 && (clip_type != ClipType::Union || closed_subjects@.len() == 0) ==> result is Some,
        open_clip_certifiable64(open_paths@, closed_subjects@, clips@, clip_type) ==> result is Some,
        clips@.len() == 0 && (clip_type != ClipType::Union || closed_subjects@.len() == 0) ==> (result matches Some(
            paths,
        ) && views(paths@) == unclipped_lines64(open_paths@, clip_type)),
        result matches Some(paths) ==> open_clip_result64(
            views(paths@),
            open_paths@,
            closed_subjects@,
            clips@,
            clip_type,
            fill_rule,
        ),
{
    // Boundary edges: clips, and for a union also the closed subjects.
    let mut boundary: Vec<(Point64, Point64)> = Vec::new();
    let union = match clip_type {
        ClipType::Union => true,
        _ => false,
    };
    if union {
        append_edges64(closed_subjects, &mut boundary);
    }
    append_edges64(clips, &mut boundary);
    let ghost unbounded = clips@.len() == 0 && (clip_type != ClipType::Union || closed_subjects@.len() == 0);
    let ghost certifiable = open_clip_certifiable64(open_paths@, closed_subjects@, clips@, clip_type);
    proof {
        if union {
            assert(boundary@ =~= open_boundary64(closed_subjects@, clips@, clip_type));
        } else {
            assert(boundary@ =~= open_boundary64(closed_subjects@, clips@, clip_type));
        }
        if unbounded {
            assert(boundary@ =~= Seq::<(Point64, Point64)>::empty());
        }
    }
    let mut output: Vec<Vec<Point64>> = Vec::new();
    let mut p: usize = 0;
    let ghost mut covers: Seq<Seq<OpenFragment64>> = Seq::empty();
    proof {
        assert(views(output@) =~= Seq::<Seq<Point64>>::empty());
    }
    while p < open_paths.len()
        invariant
            unbounded == (clips@.len() == 0 && (clip_type != ClipType::Union || closed_subjects@.len() == 0)),
            unbounded ==> boundary@.len() == 0,
                    certifiable == open_clip_certifiable64(open_paths@, closed_subjects@, clips@, clip_type),
                    boundary@ == open_boundary64(closed_subjects@, clips@, clip_type),
            p <= open_paths@.len(),
            covers.len() == p,
            runs_of_paths64(covers) == views(output@),
            unbounded ==> views(output@) == (if clip_type == ClipType::Intersection {
                Seq::<Seq<Point64>>::empty()
            } else {
                whole_open_paths64(open_paths@, p as nat)
            }),
            forall|q: int|
                0 <= q < covers.len() ==> path_fragments_ok64(
                    #[trigger] covers[q],
                    normalize_spec(open_paths@[q]@, PathKind::Open),
                    closed_subjects@,
                    clips@,
                    clip_type,
                    fill_rule,
                ),
            forall|i: int| 0 <= i < output@.len() ==> (#[trigger] output@[i])@.len() >= 2,
            lines64_on_open_paths(output@, open_paths@),
        decreases open_paths@.len() - p,
    {
        let path = if has_no_repeats(&open_paths[p]) {
            let copied = copy_points(&open_paths[p]);
            proof {
                crate::geometry::lemma_dedup_identity(open_paths@[p as int]@);
            }
            copied
        } else {
            normalize_path64(open_paths[p].as_slice(), PathKind::Open)
        };
        proof {
            assert(path@ == normalize_spec(open_paths@[p as int]@, PathKind::Open));
            crate::geometry::lemma_dedup_shape(open_paths@[p as int]@);
        }
        if path.len() >= 2 {
            let mut fragments: Vec<OpenFragment64> = Vec::new();
            let mut w: usize = 1;
            proof {
                if certifiable {
                    assert(path_certifiable64(
                        normalize_spec(open_paths@[p as int]@, PathKind::Open),
                        closed_subjects@,
                        clips@,
                        clip_type,
                    ));
                }
            }
            while w < path.len()
                invariant
                    unbounded == (clips@.len() == 0 && (clip_type != ClipType::Union || closed_subjects@.len() == 0)),
                    unbounded ==> boundary@.len() == 0,
                    certifiable == open_clip_certifiable64(open_paths@, closed_subjects@, clips@, clip_type),
                    boundary@ == open_boundary64(closed_subjects@, clips@, clip_type),
                    1 <= w <= path@.len(),
                    path@.len() >= 2,
                    crate::geometry::no_adjacent_duplicates(path@),
                    fragments_on_path64(fragments@, path@),
                    fragments_chain64(fragments@, path@),
                    fragments@.len() == 0 <==> w == 1,
                    fragments@.len() > 0 ==> fragments@.last().end == path@[w - 1],
                    fragments_classified64(fragments@, closed_subjects@, clips@, clip_type, fill_rule),
                    certifiable ==> path_certifiable64(path@, closed_subjects@, clips@, clip_type),
                    unbounded ==> fragments@.len() == w - 1 && segment_fragments64(
                        fragments@,
                        path@,
                        clip_type != ClipType::Intersection,
                    ),
                    cut_at_boundary64(fragments@, path@, boundary@, w as int),
                decreases path@.len() - w,
            {
                let a = path[w - 1];
                let b = path[w];
                proof {
                    assert(path@[w - 1] != path@[(w - 1) + 1]);
                    if certifiable {
                        assert(segment_splits_certified(path@[w - 1], path@[w as int], boundary@));
                    }
                }
                let mut pieces = match clip_segment64(a, b, &boundary, closed_subjects, clips, clip_type, fill_rule) {
                    Some(pieces) => pieces,
                    None => return None,
                };
                let ghost before = fragments@;
                let ghost added = pieces@;
                fragments.append(&mut pieces);
                proof {
                    lemma_append_pieces64(
                        before,
                        added,
                        fragments@,
                        path@,
                        w as int,
                        closed_subjects@,
                        clips@,
                        clip_type,
                        fill_rule,
                    );
                    lemma_cut_append64(before, added, fragments@, path@, boundary@, w as int);
                    if unbounded {
                        assert(fragments@ == before.push(added[0]));
                        lemma_push_segment64(before, fragments@, path@, clip_type != ClipType::Intersection);
                    }
                }
                w += 1;
            }
            let ghost unresolved = fragments@;
            resolve_boundary_fragments64(&mut fragments);
            proof {
                lemma_resolved64(unresolved, fragments@, path@, closed_subjects@, clips@, clip_type, fill_rule);
                if unbounded {
                    lemma_resolved_segments64(unresolved, fragments@, path@, clip_type != ClipType::Intersection);
                }
            }
            let ghost before = output@;
            append_open_fragments64(&fragments, &mut output);
            proof {
                assert(covers.push(fragments@).drop_last() =~= covers);
                if unbounded {
                    lemma_segment_runs64(fragments@, path@, clip_type != ClipType::Intersection);
                    assert(path@.subrange(0, fragments@.len() as int + 1) =~= path@);
                    if clip_type != ClipType::Intersection {
                        assert(kept_runs64(fragments@) =~= seq![path@]);
                    } else {
                        assert(kept_runs64(fragments@) =~= Seq::<Seq<Point64>>::empty());
                    }
                    assert(whole_open_paths64(open_paths@, (p + 1) as nat) == whole_open_paths64(open_paths@, p as nat)
                        + seq![path@]);
                }
                covers = covers.push(fragments@);
                assert forall|q: int| 0 <= q < covers.len() implies path_fragments_ok64(
                    #[trigger] covers[q],
                    normalize_spec(open_paths@[q]@, PathKind::Open),
                    closed_subjects@,
                    clips@,
                    clip_type,
                    fill_rule,
                ) by {
                }
                assert forall|i: int| 0 <= i < output@.len() implies #[trigger] line64_along_input(output@[i]@, open_paths@) by {
                    if i < before.len() {
                        assert(output@[i] == before[i]);
                    } else {
                        assert forall|j: int| 0 <= j < output@[i]@.len() implies on_open_path64(path@, #[trigger] output@[i]@[j]) by {
                            let point = output@[i]@[j];
                            assert(fragment64_point(fragments@, point));
                            let f = choose|f: int| 0 <= f < fragments@.len() && (#[trigger] fragments@[f].start == point || fragments@[f].end == point);
                            assert(on_open_path64(path@, fragments@[f].start) && on_open_path64(path@, fragments@[f].end));
                        }
                        assert(line64_on_open_path(output@[i]@, normalize_spec(open_paths@[p as int]@, PathKind::Open)));
                    }
                }
            }
        } else {
            proof {
                let none = Seq::<OpenFragment64>::empty();
                assert(whole_open_paths64(open_paths@, (p + 1) as nat) =~= whole_open_paths64(open_paths@, p as nat));
                assert(covers.push(none).drop_last() =~= covers);
                assert(kept_runs64(none) =~= Seq::<Seq<Point64>>::empty());
                assert(runs_of_paths64(covers.push(none)) =~= runs_of_paths64(covers));
                covers = covers.push(none);
                assert forall|q: int| 0 <= q < covers.len() implies path_fragments_ok64(
                    #[trigger] covers[q],
                    normalize_spec(open_paths@[q]@, PathKind::Open),
                    closed_subjects@,
                    clips@,
                    clip_type,
                    fill_rule,
                ) by {
                }
            }
        }
        p += 1;
    }
    proof {
        assert(runs_of_paths64(covers) == views(output@));
    }
    Some(output)
}

/// The edges of a closed path, each from a point to the next, wrapping.
pub open spec fn closed_edges64(path: Seq<Point64>) -> Seq<(Point64, Point64)> {
    Seq::new(path.len(), |k: int| (path[k], path[if k + 1 == path.len() { 0 } else { k + 1 }]))
}

/// The edges of the first `n` closed paths, path after path.
pub open spec fn paths_edges64(paths: Seq<Vec<Point64>>, n: nat) -> Seq<(Point64, Point64)>
    decreases n,
{
    if n == 0 {
        Seq::empty()
    } else {
        paths_edges64(paths, (n - 1) as nat) + closed_edges64(paths[n - 1]@)
    }
}

/// Appends the edges of every closed path.
fn append_edges64(paths: &[Vec<Point64>], edges: &mut Vec<(Point64, Point64)>)
    ensures
        final(edges)@ == old(edges)@ + paths_edges64(paths@, paths@.len() as nat),
{
    let ghost initial = edges@;
    let mut index: usize = 0;
    while index < paths.len()
        invariant
            index <= paths@.len(),
            edges@ == initial + paths_edges64(paths@, index as nat),
        decreases paths@.len() - index,
    {
        let path = &paths[index];
        let len = path.len();
        let ghost before = edges@;
        let mut k: usize = 0;
        while k < len
            invariant
                len == path@.len(),
                k <= len,
                edges@ == before + closed_edges64(path@).take(k as int),
            decreases len - k,
        {
            let next = if k + 1 == len {
                0
            } else {
                k + 1
            };
            edges.push((path[k], path[next]));
            proof {
                assert(closed_edges64(path@).take(k + 1) =~= closed_edges64(path@).take(k as int).push((path@[k as int], path@[next as int])));
                assert(edges@ =~= before + closed_edges64(path@).take(k + 1));
            }
            k += 1;
        }
        proof {
            assert(closed_edges64(path@).take(len as int) =~= closed_edges64(path@));
            assert(paths_edges64(paths@, (index + 1) as nat) == paths_edges64(paths@, index as nat) + closed_edges64(paths@[index as int]@));
            assert(edges@ =~= initial + paths_edges64(paths@, (index + 1) as nat));
        }
        index += 1;
    }
}

} // verus!
