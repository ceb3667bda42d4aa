//! What holds of the lateral slip, of the forward progress and of their partials: the
//! sign under reversal, which joints have a say, the bound by the distance travelled,
//! and how far the numbers are from the exact values.

use crate::arithmetic::{
    lemma_half_units, lemma_nearest_bound, lemma_one_units, lemma_product_commutes,
    lemma_sum_commutes,
};
use crate::diagnostics::{lateral_slip, middle_yaw, BaseIndices, Heading};
use crate::double::{Double, HALF, ONE, UNIT_EXPONENT};
use crate::error::{
    half_ulp, least, lemma_distributes, lemma_half_ulp, lemma_least, lemma_product_error,
    lemma_scaled_order, lemma_size_of_product, lemma_sum_error, lemma_value_of_zero,
    lemma_zero_product, lemma_zero_units, size, value,
};
use crate::finiteness::{lemma_parts_of_product, lemma_parts_of_sum};
use crate::linearization::{forward_progress, progress_partials, slip_partials};
use crate::reals::{
    lemma_minus, lemma_root_order, lemma_square, lemma_square_of_difference,
    lemma_square_of_product,
};
use vstd::arithmetic::power2::{lemma_pow2_pos, pow2};
use vstd::prelude::*;

verus! {

/// How far the base moves along x, exactly.
pub open spec fn travel_x(q_k: Seq<Double>, q_k1: Seq<Double>, base: BaseIndices) -> real {
    value(q_k1[base.x as int]) - value(q_k[base.x as int])
}

/// How far the base moves along y, exactly.
pub open spec fn travel_y(q_k: Seq<Double>, q_k1: Seq<Double>, base: BaseIndices) -> real {
    value(q_k1[base.y as int]) - value(q_k[base.y as int])
}

/// The slip sin·Δx − cos·Δy without any rounding.
pub open spec fn exact_slip(
    q_k: Seq<Double>,
    q_k1: Seq<Double>,
    base: BaseIndices,
    heading: Heading,
) -> real {
    value(heading.sin) * travel_x(q_k, q_k1, base) - value(heading.cos) * travel_y(
        q_k,
        q_k1,
        base,
    )
}

/// What rounding adds at most to a sum of two products over a travel.
pub open spec fn slack(x: real, y: real) -> real {
    (8int as real) * half_ulp() * (size(x) + size(y)) + (3int as real) * least()
}

/// Whether a heading is that of an angle, roughly: neither part is larger than two.
pub open spec fn moderate(heading: Heading) -> bool {
    &&& heading.sin.finite() && heading.cos.finite()
    &&& size(value(heading.sin)) <= 2int as real
    &&& size(value(heading.cos)) <= 2int as real
}

/// The opposite of a number has the opposite value.
pub proof fn lemma_value_of_negated(x: Double)
    requires
        x.finite(),
    ensures
        value(x.negated()) == -value(x),
        x.negated().finite(),
{
    let u = pow2(UNIT_EXPONENT as nat) as real;
    let n = x.scaled() as real;
    lemma_pow2_pos(UNIT_EXPONENT as nat);
    assert(x.negated().scaled() == -x.scaled());
    assert((-n) / u == -(n / u)) by (nonlinear_arith)
        requires
            u > 0int as real,
    ;
}

/// One product of a factor and a rounded travel.
proof fn lemma_term_error(factor: Double, rounded: Double, exact: real)
    requires
        factor.product(rounded).finite(),
        size(value(factor)) <= 2int as real,
        size(value(rounded) - exact) <= half_ulp() * size(exact),
    ensures
        size(value(factor.product(rounded)) - value(factor) * exact) <= (5int as real)
            * half_ulp() * size(exact) + least(),
        size(value(factor.product(rounded))) <= (3int as real) * size(exact) + least(),
{
    lemma_half_ulp();
    lemma_least();
    lemma_product_error(factor, rounded);
    let (s, p, e, h, l) = (value(factor), value(rounded), exact, half_ulp(), least());
    let w = value(factor.product(rounded));
    let two = 2int as real;
    let a = size(e);
    let d = p - e;
    let ha = h * a;
    // |p| ≤ a + h·a, and h·|s·p| ≤ 2·(h·a + h·(h·a)).
    assert(size(p) <= a + ha);
    lemma_size_of_product(s, p);
    lemma_scaled_order(size(p), size(s), two);
    assert(size(s * p) <= two * size(p));
    assert(size(s * p) <= two * a + two * ha);
    lemma_scaled_order(h, size(s * p), two * a + two * ha);
    lemma_twice(h, a, ha);
    assert(h * size(s * p) <= two * ha + two * (h * ha));
    // h·(h·a) is small against h·a.
    lemma_scaled_order(a, 0int as real, h);
    lemma_tenth(h, ha);
    // |s·(p − e)| ≤ 2·h·a.
    lemma_size_of_product(s, d);
    lemma_scaled_order(size(d), size(s), two);
    assert(size(s * d) <= two * ha);
    lemma_distributes(s, p, e);
    assert(size(w - s * e) <= (5int as real) * ha + l);
    assert((5int as real) * h * a == (5int as real) * ha) by (nonlinear_arith)
        requires
            ha == h * a,
    ;
    // |s·e| ≤ 2·a.
    lemma_size_of_product(s, e);
    lemma_scaled_order(a, size(s), two);
    assert(size(s * e) <= two * a);
    lemma_tenth(h, a);
}

pub(crate) proof fn lemma_twice(h: real, a: real, b: real)
    by (nonlinear_arith)
    ensures
        h * ((2int as real) * a + (2int as real) * b) == (2int as real) * (h * a) + (2int as real)
            * (h * b),
{
}

/// A tenth of something is small against it.
pub(crate) proof fn lemma_tenth(h: real, a: real)
    by (nonlinear_arith)
    requires
        h >= 0int as real,
        (10int as real) * h <= 1int as real,
        a >= 0int as real,
    ensures
        (10int as real) * (h * a) <= a,
        h * a >= 0int as real,
{
}

/// The sum of two products of factors and rounded travels.
proof fn lemma_pair_error(
    a: Double,
    p: Double,
    exact_p: real,
    b: Double,
    q: Double,
    exact_q: real,
)
    requires
        a.product(p).sum(b.product(q)).finite(),
        size(value(a)) <= 2int as real,
        size(value(b)) <= 2int as real,
        size(value(p) - exact_p) <= half_ulp() * size(exact_p),
        size(value(q) - exact_q) <= half_ulp() * size(exact_q),
    ensures
        size(
            value(a.product(p).sum(b.product(q))) - (value(a) * exact_p + value(b) * exact_q),
        ) <= slack(exact_p, exact_q),
{
    lemma_half_ulp();
    lemma_least();
    let (v, w) = (a.product(p), b.product(q));
    lemma_parts_of_sum(v, w);
    lemma_term_error(a, p, exact_p);
    lemma_term_error(b, q, exact_q);
    lemma_sum_error(v, w);
    let (h, l) = (half_ulp(), least());
    let t = size(exact_p) + size(exact_q);
    let m = size(value(v) + value(w));
    assert(m <= (3int as real) * t + (2int as real) * l);
    lemma_scaled_order(h, m, (3int as real) * t + (2int as real) * l);
    let (hp, hq) = (h * size(exact_p), h * size(exact_q));
    assert(h * ((3int as real) * t + (2int as real) * l) == (3int as real) * (hp + hq) + (2int
        as real) * (h * l)) by (nonlinear_arith)
        requires
            t == size(exact_p) + size(exact_q),
            hp == h * size(exact_p),
            hq == h * size(exact_q),
    ;
    lemma_tenth(h, l);
    assert((5int as real) * h * size(exact_p) == (5int as real) * hp) by (nonlinear_arith)
        requires
            hp == h * size(exact_p),
    ;
    assert((5int as real) * h * size(exact_q) == (5int as real) * hq) by (nonlinear_arith)
        requires
            hq == h * size(exact_q),
    ;
    assert((8int as real) * h * t == (8int as real) * (hp + hq)) by (nonlinear_arith)
        requires
            t == size(exact_p) + size(exact_q),
            hp == h * size(exact_p),
            hq == h * size(exact_q),
    ;
}

/// A difference, as the rounded travel.
proof fn lemma_travel_error(from: Double, to: Double)
    requires
        to.difference(from).finite(),
    ensures
        from.finite(),
        to.finite(),
        size(value(to.difference(from)) - (value(to) - value(from))) <= half_ulp() * size(
            value(to) - value(from),
        ),
{
    lemma_parts_of_sum(to, from.negated());
    lemma_value_of_negated(from);
    lemma_sum_error(to, from.negated());
}

/// The slip is the exact one up to rounding.
pub proof fn lemma_slip_is_exact_to_rounding(
    q_k: Seq<Double>,
    q_k1: Seq<Double>,
    base: BaseIndices,
    heading: Heading,
)
    requires
        lateral_slip(q_k, q_k1, base, heading).finite(),
        moderate(heading),
    ensures
        size(
            value(lateral_slip(q_k, q_k1, base, heading)) - exact_slip(
                q_k,
                q_k1,
                base,
                heading,
            ),
        ) <= slack(travel_x(q_k, q_k1, base), travel_y(q_k, q_k1, base)),
{
    let dx = q_k1[base.x as int].difference(q_k[base.x as int]);
    let dy = q_k1[base.y as int].difference(q_k[base.y as int]);
    let (v, w) = (heading.sin.product(dx), heading.cos.product(dy));
    lemma_parts_of_sum(v, w.negated());
    lemma_parts_of_product(heading.sin, dx);
    lemma_parts_of_product(heading.cos, dy);
    lemma_travel_error(q_k[base.x as int], q_k1[base.x as int]);
    lemma_travel_error(q_k[base.y as int], q_k1[base.y as int]);
    let minus = heading.cos.negated();
    lemma_value_of_negated(heading.cos);
    lemma_negated_factor(heading.cos, dy);
    let (x, y) = (travel_x(q_k, q_k1, base), travel_y(q_k, q_k1, base));
    lemma_pair_error(heading.sin, dx, x, minus, dy, y);
    assert(value(minus) * y == -(value(heading.cos) * y)) by (nonlinear_arith)
        requires
            value(minus) == -value(heading.cos),
    ;
}

/// A product with one factor's sign turned is the product with its sign turned.
proof fn lemma_negated_factor(a: Double, b: Double)
    requires
        !a.product(b).nan(),
    ensures
        a.negated().product(b) == a.product(b).negated(),
        b.product(a.negated()) == b.product(a).negated(),
{
    reveal(Double::product);
    lemma_product_commutes(a, b);
    lemma_product_commutes(a.negated(), b);
}

/// The slip is not larger than the distance travelled, times the length of the
/// heading, up to rounding. `distance` is any bound on the distance, `length` any
/// bound on the root of sin² + cos², which is one but for rounding.
pub proof fn lemma_slip_is_bounded_by_the_distance(
    q_k: Seq<Double>,
    q_k1: Seq<Double>,
    base: BaseIndices,
    heading: Heading,
    distance: real,
    length: real,
)
    requires
        lateral_slip(q_k, q_k1, base, heading).finite(),
        heading.sin.finite() && heading.cos.finite(),
        0int as real <= length <= 2int as real,
        value(heading.sin) * value(heading.sin) + value(heading.cos) * value(heading.cos)
            <= length * length,
        0int as real <= distance,
        travel_x(q_k, q_k1, base) * travel_x(q_k, q_k1, base) + travel_y(q_k, q_k1, base)
            * travel_y(q_k, q_k1, base) <= distance * distance,
    ensures
        size(value(lateral_slip(q_k, q_k1, base, heading))) <= (length + (16int as real)
            * half_ulp()) * distance + (3int as real) * least(),
{
    lemma_half_ulp();
    let (s, c) = (value(heading.sin), value(heading.cos));
    let (x, y) = (travel_x(q_k, q_k1, base), travel_y(q_k, q_k1, base));
    let h = half_ulp();
    lemma_smaller_than_root(s, c, length);
    lemma_smaller_than_root(c, s, length);
    lemma_smaller_than_root(x, y, distance);
    lemma_smaller_than_root(y, x, distance);
    lemma_slip_is_exact_to_rounding(q_k, q_k1, base, heading);
    let exact = s * x - c * y;
    lemma_lagrange(s, c, x, y);
    let (m, n) = (s * s + c * c, x * x + y * y);
    lemma_square(s * y + c * x);
    lemma_square(s);
    lemma_square(c);
    lemma_square(x);
    lemma_square(y);
    lemma_square(length);
    lemma_scaled_order(m, n, distance * distance);
    lemma_square(distance);
    lemma_scaled_order(distance * distance, m, length * length);
    lemma_square_of_product(length, distance);
    lemma_scaled_order(distance, 0int as real, length);
    lemma_root_order(exact, length * distance);
    lemma_scaled_order((8int as real) * h, size(x) + size(y), distance + distance);
    lemma_distributes((8int as real) * h, distance, distance);
    lemma_distributes(distance, length, (16int as real) * h);
    assert((16int as real) * h * distance == (8int as real) * h * distance + (8int as real) * h
        * distance) by (nonlinear_arith);
}

proof fn lemma_regrouped(s: real, c: real, x: real, y: real)
    by (nonlinear_arith)
    ensures
        (s * x) * (c * y) == (s * y) * (c * x),
{
}

/// (s·x − c·y)² + (s·y + c·x)² = (s² + c²)·(x² + y²).
proof fn lemma_lagrange(s: real, c: real, x: real, y: real)
    ensures
        (s * x - c * y) * (s * x - c * y) + (s * y + c * x) * (s * y + c * x) == (s * s + c * c)
            * (x * x + y * y),
{
    lemma_square_of_difference(s * x, c * y);
    lemma_square_of_difference(s * y, c * x);
    lemma_regrouped(s, c, x, y);
    lemma_square_of_product(s, x);
    lemma_square_of_product(c, y);
    lemma_square_of_product(s, y);
    lemma_square_of_product(c, x);
    lemma_distributes(x * x + y * y, s * s, c * c);
    lemma_distributes(s * s, x * x, y * y);
    lemma_distributes(c * c, x * x, y * y);
}

proof fn lemma_smaller_than_root(a: real, b: real, root: real)
    requires
        a * a + b * b <= root * root,
        root >= 0int as real,
    ensures
        size(a) <= root,
{
    lemma_square(b);
    lemma_root_order(a, root);
}

/// The slip vanishes, to rounding, exactly where the base moves along its heading,
/// forward or backward. Such a motion has no more slip than rounding adds, and a
/// motion without slip is across the heading by no more than that.
pub proof fn lemma_slip_vanishes_along_the_heading(
    q_k: Seq<Double>,
    q_k1: Seq<Double>,
    base: BaseIndices,
    heading: Heading,
    along: real,
)
    requires
        lateral_slip(q_k, q_k1, base, heading).finite(),
        moderate(heading),
    ensures
        ({
            let (x, y) = (travel_x(q_k, q_k1, base), travel_y(q_k, q_k1, base));
            let (s, c) = (value(heading.sin), value(heading.cos));
            let slip = lateral_slip(q_k, q_k1, base, heading);
            &&& x == along * c && y == along * s ==> size(value(slip)) <= slack(x, y)
            &&& slip.zero() ==> size(s * x - c * y) <= slack(x, y)
        }),
{
    lemma_slip_is_exact_to_rounding(q_k, q_k1, base, heading);
    let (x, y) = (travel_x(q_k, q_k1, base), travel_y(q_k, q_k1, base));
    let (s, c) = (value(heading.sin), value(heading.cos));
    let slip = lateral_slip(q_k, q_k1, base, heading);
    if x == along * c && y == along * s {
        assert(s * x - c * y == 0int as real) by (nonlinear_arith)
            requires
                x == along * c,
                y == along * s,
        ;
    }
    if slip.zero() {
        lemma_value_of_zero(slip);
    }
}

/// Reversing the two knots keeps the midpoint heading and turns the sign of the slip.
pub proof fn lemma_reversal_turns_the_sign(
    q_k: Seq<Double>,
    q_k1: Seq<Double>,
    base: BaseIndices,
    heading: Heading,
)
    requires
        !lateral_slip(q_k, q_k1, base, heading).nan(),
    ensures
        middle_yaw(q_k1, q_k, base) == middle_yaw(q_k, q_k1, base),
        ({
            let slip = lateral_slip(q_k, q_k1, base, heading);
            let back = lateral_slip(q_k1, q_k, base, heading);
            back == slip.negated() || (back.zero() && slip.zero())
        }),
{
    lemma_sum_commutes(q_k[base.yaw as int], q_k1[base.yaw as int]);
    let (x0, x1) = (q_k[base.x as int], q_k1[base.x as int]);
    let (y0, y1) = (q_k[base.y as int], q_k1[base.y as int]);
    let (dx, dy) = (x1.difference(x0), y1.difference(y0));
    let (v, w) = (heading.sin.product(dx), heading.cos.product(dy));
    lemma_number_parts_of_sum(v, w.negated());
    lemma_number_parts_of_product(heading.sin, dx);
    lemma_number_parts_of_product(heading.cos, dy);
    lemma_difference_reversed(x0, x1);
    lemma_difference_reversed(y0, y1);
    let (ex, ey) = (x0.difference(x1), y0.difference(y1));
    let (p, q) = (heading.sin.product(ex), heading.cos.product(ey));
    lemma_product_of_opposite(heading.sin, dx, ex);
    lemma_product_of_opposite(heading.cos, dy, ey);
    lemma_sum_of_opposites(v, w.negated(), p, q.negated());
}

/// Whether a number is the opposite of another, the two zeros being one.
spec fn opposite(a: Double, b: Double) -> bool {
    a == b.negated() || (a.zero() && b.zero())
}

proof fn lemma_number_parts_of_sum(a: Double, b: Double)
    requires
        !a.sum(b).nan(),
    ensures
        !a.nan(),
        !b.nan(),
{
    reveal(Double::sum);
}

proof fn lemma_number_parts_of_product(a: Double, b: Double)
    requires
        !a.product(b).nan(),
    ensures
        !a.nan(),
        !b.nan(),
{
    reveal(Double::product);
}

proof fn lemma_difference_reversed(a: Double, b: Double)
    requires
        !b.difference(a).nan(),
    ensures
        opposite(a.difference(b), b.difference(a)),
{
    lemma_number_parts_of_sum(b, a.negated());
    lemma_sum_commutes(b, a.negated());
    lemma_sum_of_opposites(a.negated(), b, a, b.negated());
}

/// The sum of opposites is the opposite of the sum.
proof fn lemma_sum_of_opposites(a: Double, b: Double, c: Double, d: Double)
    requires
        !a.sum(b).nan(),
        opposite(c, a),
        opposite(d, b),
    ensures
        opposite(c.sum(d), a.sum(b)),
{
    reveal(Double::sum);
    lemma_zero_units();
    let (m, n) = (a.scaled() + b.scaled(), c.scaled() + d.scaled());
    if a.finite() && b.finite() {
        assert(n == -m);
        lemma_nearest_bound(m as nat, 1);
        lemma_nearest_bound((-m) as nat, 1);
    }
}

proof fn lemma_product_of_opposite(factor: Double, a: Double, b: Double)
    requires
        !factor.product(a).nan(),
        opposite(b, a),
    ensures
        opposite(factor.product(b), factor.product(a)),
{
    reveal(Double::product);
    lemma_zero_units();
    lemma_zero_product(factor);
}

/// Only the base joints have a say in the slip and its partials: two intervals that
/// agree in x, y and yaw have the same.
pub proof fn lemma_other_joints_have_no_say(
    q_k: Seq<Double>,
    q_k1: Seq<Double>,
    p_k: Seq<Double>,
    p_k1: Seq<Double>,
    base: BaseIndices,
    heading: Heading,
)
    requires
        p_k.len() == q_k.len(),
        p_k[base.x as int] == q_k[base.x as int],
        p_k[base.y as int] == q_k[base.y as int],
        p_k[base.yaw as int] == q_k[base.yaw as int],
        p_k1[base.x as int] == q_k1[base.x as int],
        p_k1[base.y as int] == q_k1[base.y as int],
        p_k1[base.yaw as int] == q_k1[base.yaw as int],
    ensures
        middle_yaw(p_k, p_k1, base) == middle_yaw(q_k, q_k1, base),
        lateral_slip(p_k, p_k1, base, heading) == lateral_slip(q_k, q_k1, base, heading),
        slip_partials(p_k, p_k1, base, heading) == slip_partials(q_k, q_k1, base, heading),
{
}

/// The partials in x and y are those of the slip: with the heading held, a change of
/// the base positions changes the slip by the partials times the change, to rounding.
pub proof fn lemma_position_partials(
    q_k: Seq<Double>,
    q_k1: Seq<Double>,
    p_k: Seq<Double>,
    p_k1: Seq<Double>,
    base: BaseIndices,
    heading: Heading,
)
    requires
        lateral_slip(q_k, q_k1, base, heading).finite(),
        lateral_slip(p_k, p_k1, base, heading).finite(),
        moderate(heading),
    ensures
        ({
            let partials = slip_partials(q_k, q_k1, base, heading);
            let (x, y) = (base.x as int, base.y as int);
            let predicted = value(partials[0].1) * (value(p_k[x]) - value(q_k[x])) + value(
                partials[1].1,
            ) * (value(p_k[y]) - value(q_k[y])) + value(partials[3].1) * (value(p_k1[x]) - value(
                q_k1[x],
            )) + value(partials[4].1) * (value(p_k1[y]) - value(q_k1[y]));
            let change = value(lateral_slip(p_k, p_k1, base, heading)) - value(
                lateral_slip(q_k, q_k1, base, heading),
            );
            size(change - predicted) <= slack(
                travel_x(q_k, q_k1, base),
                travel_y(q_k, q_k1, base),
            ) + slack(travel_x(p_k, p_k1, base), travel_y(p_k, p_k1, base))
        }),
{
    lemma_slip_is_exact_to_rounding(q_k, q_k1, base, heading);
    lemma_slip_is_exact_to_rounding(p_k, p_k1, base, heading);
    lemma_value_of_negated(heading.sin);
    lemma_value_of_negated(heading.cos);
    let (s, c) = (value(heading.sin), value(heading.cos));
    let (x, y) = (base.x as int, base.y as int);
    let (x0, x1, u0, u1) = (value(q_k[x]), value(q_k1[x]), value(p_k[x]), value(p_k1[x]));
    let (y0, y1, v0, v1) = (value(q_k[y]), value(q_k1[y]), value(p_k[y]), value(p_k1[y]));
    lemma_distributes(s, x1, x0);
    lemma_distributes(s, u1, u0);
    lemma_distributes(c, y1, y0);
    lemma_distributes(c, v1, v0);
    lemma_distributes(s, u1, x1);
    lemma_distributes(c, v0, y0);
    lemma_distributes(-s, u0, x0);
    lemma_distributes(-c, v1, y1);
    lemma_minus(s, u0);
    lemma_minus(s, x0);
    lemma_minus(c, v1);
    lemma_minus(c, y1);
}

/// The yaw partial is half the exact progress, to rounding.
proof fn lemma_yaw_partial(
    q_k: Seq<Double>,
    q_k1: Seq<Double>,
    base: BaseIndices,
    heading: Heading,
)
    requires
        slip_partials(q_k, q_k1, base, heading)[2].1.finite(),
        moderate(heading),
    ensures
        ({
            let (x, y) = (travel_x(q_k, q_k1, base), travel_y(q_k, q_k1, base));
            let progress = value(heading.cos) * x + value(heading.sin) * y;
            size((2int as real) * value(slip_partials(q_k, q_k1, base, heading)[2].1) - progress)
                <= (4int as real) * slack(x, y)
        }),
{
    lemma_half_ulp();
    lemma_least();
    let dx = q_k1[base.x as int].difference(q_k[base.x as int]);
    let dy = q_k1[base.y as int].difference(q_k[base.y as int]);
    let (v, w) = (heading.cos.product(dx), heading.sin.product(dy));
    let half = Double { bits: HALF };
    let sum = v.sum(w);
    lemma_parts_of_product(half, sum);
    lemma_parts_of_sum(v, w);
    lemma_parts_of_product(heading.cos, dx);
    lemma_parts_of_product(heading.sin, dy);
    lemma_travel_error(q_k[base.x as int], q_k1[base.x as int]);
    lemma_travel_error(q_k[base.y as int], q_k1[base.y as int]);
    let (x, y) = (travel_x(q_k, q_k1, base), travel_y(q_k, q_k1, base));
    lemma_pair_error(heading.cos, dx, x, heading.sin, dy, y);
    lemma_product_error(half, sum);
    lemma_value_of_half();
    let (h, l) = (half_ulp(), least());
    let (c, s) = (value(heading.cos), value(heading.sin));
    let f = value(sum);
    let partial = value(half.product(sum));
    let t = size(x) + size(y);
    let progress = c * x + s * y;
    lemma_size_of_product(c, x);
    lemma_size_of_product(s, y);
    lemma_scaled_order(size(x), size(c), 2int as real);
    lemma_scaled_order(size(y), size(s), 2int as real);
    assert(size(progress) <= (2int as real) * t);
    assert(size(f) <= (2int as real) * t + slack(x, y));
    // |2·partial − f| ≤ h·|f| + 2·l
    lemma_halves(f);
    let e = value(half) * f;
    assert((2int as real) * e == f);
    assert(size(e) + size(e) == size(f));
    lemma_distributes(h, size(e), size(e));
    lemma_scaled_order(h, size(f), (2int as real) * t + slack(x, y));
    assert(h * ((2int as real) * t + slack(x, y)) == (2int as real) * (h * t) + h * slack(x, y))
        by (nonlinear_arith);
    assert((8int as real) * h * t == (8int as real) * (h * t)) by (nonlinear_arith);
    assert(slack(x, y) >= 0int as real) by {
        lemma_scaled_order(h, 0int as real, t);
    }
    lemma_scaled_order(h, 0int as real, t);
    lemma_tenth(h, slack(x, y));
}

proof fn lemma_halves(f: real)
    ensures
        (2int as real) * (value(Double { bits: HALF }) * f) == f,
{
    lemma_value_of_half();
    let v = value(Double { bits: HALF });
    assert((2int as real) * (v * f) == f) by (nonlinear_arith)
        requires
            (2int as real) * v == 1int as real,
    ;
}

/// The yaw partials are those of the slip: a turn of the midpoint heading, from
/// `behind` to `ahead`, changes the slip by the partial times the turn of either yaw,
/// which is twice as much, to rounding. What the sine and cosine change by beyond their
/// derivatives, cos·turn and −sin·turn, is at most `off`.
pub proof fn lemma_yaw_partials(
    q_k: Seq<Double>,
    q_k1: Seq<Double>,
    base: BaseIndices,
    heading: Heading,
    behind: Heading,
    ahead: Heading,
    turn: real,
    off: real,
)
    requires
        lateral_slip(q_k, q_k1, base, behind).finite(),
        lateral_slip(q_k, q_k1, base, ahead).finite(),
        slip_partials(q_k, q_k1, base, heading)[2].1.finite(),
        moderate(heading),
        moderate(behind),
        moderate(ahead),
        size(value(ahead.sin) - value(behind.sin) - value(heading.cos) * turn) <= off,
        size(value(ahead.cos) - value(behind.cos) + value(heading.sin) * turn) <= off,
    ensures
        ({
            let partials = slip_partials(q_k, q_k1, base, heading);
            let (x, y) = (travel_x(q_k, q_k1, base), travel_y(q_k, q_k1, base));
            let change = value(lateral_slip(q_k, q_k1, base, ahead)) - value(
                lateral_slip(q_k, q_k1, base, behind),
            );
            &&& partials[5].1 == partials[2].1
            &&& size(change - (2int as real) * value(partials[2].1) * turn) <= off * (size(x)
                + size(y)) + ((2int as real) + (4int as real) * size(turn)) * slack(x, y)
        }),
{
    lemma_slip_is_exact_to_rounding(q_k, q_k1, base, behind);
    lemma_slip_is_exact_to_rounding(q_k, q_k1, base, ahead);
    lemma_yaw_partial(q_k, q_k1, base, heading);
    let (x, y) = (travel_x(q_k, q_k1, base), travel_y(q_k, q_k1, base));
    let (s, c) = (value(heading.sin), value(heading.cos));
    let (s0, c0) = (value(behind.sin), value(behind.cos));
    let (s1, c1) = (value(ahead.sin), value(ahead.cos));
    let k = slack(x, y);
    let (a, b) = (s1 - s0 - c * turn, c1 - c0 + s * turn);
    let progress = c * x + s * y;
    let partial = value(slip_partials(q_k, q_k1, base, heading)[2].1);
    // The exact change is progress·turn + a·x − b·y.
    assert((s1 * x - c1 * y) - (s0 * x - c0 * y) == progress * turn + a * x - b * y) by {
        lemma_distributes(x, s1, s0);
        lemma_distributes(x, s1 - s0, c * turn);
        lemma_distributes(y, c1, c0);
        lemma_distributes(y, c1 - c0, s * turn);
        lemma_distributes(turn, c * x, s * y);
        lemma_exchanged(c, turn, x);
        lemma_exchanged(s, turn, y);
    }
    lemma_size_of_product(a, x);
    lemma_size_of_product(b, y);
    lemma_scaled_order(size(x), size(a), off);
    lemma_scaled_order(size(y), size(b), off);
    lemma_distributes(off, size(x), size(y));
    // |2·partial·turn − progress·turn| ≤ 4·k·|turn|.
    let d = (2int as real) * partial - progress;
    lemma_distributes(turn, (2int as real) * partial, progress);
    lemma_size_of_product(d, turn);
    assert(d * turn == (2int as real) * partial * turn - progress * turn);
    lemma_scaled_order(size(turn), size(d), (4int as real) * k);
    assert(((2int as real) + (4int as real) * size(turn)) * k == (2int as real) * k + (4int as real)
        * k * size(turn)) by (nonlinear_arith);
}

proof fn lemma_exchanged(a: real, b: real, c: real)
    by (nonlinear_arith)
    ensures
        (a * b) * c == (a * c) * b,
        c * (a * b) == (a * c) * b,
        c * a == a * c,
{
}

/// A heading a quarter turn back: its sine is the cosine, and its cosine the opposite
/// of the sine.
pub open spec fn quarter_back(heading: Heading) -> Heading {
    Heading { sin: heading.cos, cos: heading.sin.negated() }
}

/// The forward progress is the slip across a heading a quarter turn back, and its
/// partials are those of that slip.
pub proof fn lemma_progress_is_slip_across(
    q_k: Seq<Double>,
    q_k1: Seq<Double>,
    base: BaseIndices,
    heading: Heading,
)
    requires
        forward_progress(q_k, q_k1, base, heading).finite(),
        moderate(heading),
    ensures
        moderate(quarter_back(heading)),
        forward_progress(q_k, q_k1, base, heading) == lateral_slip(
            q_k,
            q_k1,
            base,
            quarter_back(heading),
        ),
        progress_partials(q_k, q_k1, base, heading)[2].1.finite() ==> progress_partials(
            q_k,
            q_k1,
            base,
            heading,
        ) == slip_partials(q_k, q_k1, base, quarter_back(heading)),
{
    let dx = q_k1[base.x as int].difference(q_k[base.x as int]);
    let dy = q_k1[base.y as int].difference(q_k[base.y as int]);
    let (v, w) = (heading.cos.product(dx), heading.sin.product(dy));
    lemma_parts_of_sum(v, w);
    lemma_value_of_negated(heading.sin);
    lemma_negated_factor(heading.sin, dy);
    lemma_negated_twice(w);
    lemma_negated_twice(heading.sin);
    let (a, b) = (heading.cos.product(dy), heading.sin.product(dx));
    if progress_partials(q_k, q_k1, base, heading)[2].1.finite() {
        lemma_parts_of_product(Double { bits: HALF }, a.difference(b));
        lemma_parts_of_sum(a, b.negated());
        lemma_negated_factor(heading.sin, dx);
        lemma_sum_commutes(a, b.negated());
        assert(progress_partials(q_k, q_k1, base, heading) =~= slip_partials(
            q_k,
            q_k1,
            base,
            quarter_back(heading),
        ));
    }
}

proof fn lemma_negated_twice(x: Double)
    ensures
        x.negated().negated() == x,
{
}

/// The partials of the forward progress in x and y are those of the progress: with the
/// heading held, a change of the base positions changes it by the partials times the
/// change, to rounding.
pub proof fn lemma_progress_position_partials(
    q_k: Seq<Double>,
    q_k1: Seq<Double>,
    p_k: Seq<Double>,
    p_k1: Seq<Double>,
    base: BaseIndices,
    heading: Heading,
)
    requires
        forward_progress(q_k, q_k1, base, heading).finite(),
        forward_progress(p_k, p_k1, base, heading).finite(),
        moderate(heading),
    ensures
        ({
            let partials = progress_partials(q_k, q_k1, base, heading);
            let (x, y) = (base.x as int, base.y as int);
            let predicted = value(partials[0].1) * (value(p_k[x]) - value(q_k[x])) + value(
                partials[1].1,
            ) * (value(p_k[y]) - value(q_k[y])) + value(partials[3].1) * (value(p_k1[x]) - value(
                q_k1[x],
            )) + value(partials[4].1) * (value(p_k1[y]) - value(q_k1[y]));
            let change = value(forward_progress(p_k, p_k1, base, heading)) - value(
                forward_progress(q_k, q_k1, base, heading),
            );
            size(change - predicted) <= slack(
                travel_x(q_k, q_k1, base),
                travel_y(q_k, q_k1, base),
            ) + slack(travel_x(p_k, p_k1, base), travel_y(p_k, p_k1, base))
        }),
{
    lemma_progress_is_slip_across(q_k, q_k1, base, heading);
    lemma_progress_is_slip_across(p_k, p_k1, base, heading);
    lemma_position_partials(q_k, q_k1, p_k, p_k1, base, quarter_back(heading));
    lemma_negated_twice(heading.sin);
}

/// The yaw partials of the forward progress are those of the progress, to rounding, as
/// those of the slip are: what the sine and cosine change by beyond their derivatives
/// is at most `off`.
pub proof fn lemma_progress_yaw_partials(
    q_k: Seq<Double>,
    q_k1: Seq<Double>,
    base: BaseIndices,
    heading: Heading,
    behind: Heading,
    ahead: Heading,
    turn: real,
    off: real,
)
    requires
        forward_progress(q_k, q_k1, base, heading).finite(),
        forward_progress(q_k, q_k1, base, behind).finite(),
        forward_progress(q_k, q_k1, base, ahead).finite(),
        progress_partials(q_k, q_k1, base, heading)[2].1.finite(),
        moderate(heading),
        moderate(behind),
        moderate(ahead),
        size(value(ahead.sin) - value(behind.sin) - value(heading.cos) * turn) <= off,
        size(value(ahead.cos) - value(behind.cos) + value(heading.sin) * turn) <= off,
    ensures
        ({
            let partials = progress_partials(q_k, q_k1, base, heading);
            let (x, y) = (travel_x(q_k, q_k1, base), travel_y(q_k, q_k1, base));
            let change = value(forward_progress(q_k, q_k1, base, ahead)) - value(
                forward_progress(q_k, q_k1, base, behind),
            );
            &&& partials[5].1 == partials[2].1
            &&& size(change - (2int as real) * value(partials[2].1) * turn) <= off * (size(x)
                + size(y)) + ((2int as real) + (4int as real) * size(turn)) * slack(x, y)
        }),
{
    lemma_progress_is_slip_across(q_k, q_k1, base, heading);
    lemma_progress_is_slip_across(q_k, q_k1, base, behind);
    lemma_progress_is_slip_across(q_k, q_k1, base, ahead);
    lemma_value_of_negated(heading.sin);
    lemma_value_of_negated(behind.sin);
    lemma_value_of_negated(ahead.sin);
    lemma_minus(value(heading.sin), turn);
    lemma_yaw_partials(
        q_k,
        q_k1,
        base,
        quarter_back(heading),
        quarter_back(behind),
        quarter_back(ahead),
        turn,
        off,
    );
}

/// The value of one.
pub(crate) proof fn lemma_value_of_one()
    ensures
        value(Double { bits: ONE }) == 1int as real,
{
    lemma_one_units();
    lemma_pow2_pos(UNIT_EXPONENT as nat);
    let u = pow2(UNIT_EXPONENT as nat) as real;
    assert((Double { bits: ONE }).scaled() as real == u);
    assert(u / u == 1int as real) by (nonlinear_arith)
        requires
            u > 0int as real,
    ;
}

/// The value of one half.
pub(crate) proof fn lemma_value_of_half()
    ensures
        (2int as real) * value(Double { bits: HALF }) == 1int as real,
{
    lemma_half_units();
    let u = pow2(UNIT_EXPONENT as nat) as real;
    let half = (Double { bits: HALF }).scaled() as real;
    lemma_pow2_pos(UNIT_EXPONENT as nat);
    assert((2int as real) * half == u);
    assert((2int as real) * (half / u) == 1int as real) by (nonlinear_arith)
        requires
            (2int as real) * half == u,
            u > 0int as real,
    ;
}

} // verus!
