//! The fillet of a corner is near the tangent arc, where the angles that were handed in
//! are accurate: how far its directions, its center and its cut points are off.

use crate::double::Double;
use crate::error::{
    half_ulp, least, lemma_distributes, lemma_half_ulp, lemma_product_error, lemma_scaled_order,
    lemma_size_of_product, lemma_sum_error, size, value,
};
use crate::path::{
    corner_between, fillet_of, follows_fillet, CornerAngles, CornerFillet, Leg, PieceKind,
};
use crate::quotients::{
    billionth, lemma_least_is_tiny, lemma_quotient_error, lemma_root_near, lemma_squares_error,
    lemma_value_of_negative,
};
use crate::range::{
    large, lemma_inner_within, lemma_large, lemma_product_within, lemma_quotient_in_range,
    lemma_root_in_range, lemma_sum_within, vector_within, within,
};
use crate::reals::{
    bounded, cross, dot, lemma_associates, lemma_bounded_product, lemma_commutes, lemma_exchanges,
    lemma_minus, lemma_one, lemma_root_order, lemma_square, lemma_square_of_product,
    lemma_strict_order, lemma_three, lemma_zero, values,
};
use crate::slip::lemma_value_of_negated;
use crate::tangent::{
    arc_slack, is_tangent_arc, lemma_arc_ends_where_its_leg_ends, moved, near, rounded_off, turned,
};
use crate::vector::Vector3;
use vstd::prelude::*;

verus! {

/// A length that a direction can be told of: at least 1e-8.
pub open spec fn shortest() -> real {
    (1int as real) / (100000000int as real)
}

proof fn lemma_pair(d: real, c: real, y: real)
    by (nonlinear_arith)
    ensures
        (d * y) * (c * y) == c * (d * (y * y)),
{
}

/// The square of a component that is off by a part of the length.
proof fn lemma_square_near(v: real, x: real, y: real, delta: real)
    requires
        size(v - x) <= delta * y,
        size(x) <= y,
        y >= 0int as real,
        0int as real <= delta <= (1int as real) / (1000int as real),
    ensures
        size(v * v - x * x) <= (2001int as real) / (1000int as real) * (delta * (y * y)),
        size(v) <= (1001int as real) / (1000int as real) * y,
{
    lemma_scaled_order(y, delta, (1int as real) / (1000int as real));
    lemma_distributes(v - x, v, x);
    lemma_distributes(v, v, x);
    lemma_distributes(x, v, x);
    lemma_commutes(v, x);
    let c = (2001int as real) / (1000int as real);
    lemma_bounded_product(v - x, v + x, delta * y, c * y);
    lemma_pair(delta, c, y);
}

/// A component divided by a length that is off by little.
proof fn lemma_component_near(
    q: real,
    len: real,
    v: real,
    x: real,
    y: real,
    n: real,
    delta: real,
)
    requires
        y >= shortest(),
        x == y * n,
        size(x) <= y,
        size(v - x) <= delta * y,
        0int as real <= delta <= (1int as real) / (1000int as real),
        size(len - y) <= ((61int as real) / (10int as real) * delta + (8int as real) * half_ulp())
            * y,
        size(q * len - v) <= half_ulp() * size(v) + least() * size(len),
    ensures
        size(q - n) <= (8int as real) * delta + (10int as real) * half_ulp(),
{
    lemma_half_ulp();
    lemma_least_is_tiny();
    let (h, l) = (half_ulp(), least());
    let dy = delta * y;
    let hy = h * y;
    lemma_scaled_order(y, delta, (1int as real) / (1000int as real));
    lemma_scaled_order(y, h, (1int as real) / (10000int as real));
    lemma_scaled_order(y, 0int as real, delta);
    lemma_scaled_order(y, 0int as real, h);
    lemma_zero(y);
    lemma_commutes(y, 0int as real);
    let wide = (61int as real) / (10int as real) * delta + (8int as real) * h;
    lemma_distributes(y, (61int as real) / (10int as real) * delta, (8int as real) * h);
    lemma_associates((61int as real) / (10int as real), delta, y);
    lemma_associates(8int as real, h, y);
    assert(wide * y == (61int as real) / (10int as real) * dy + (8int as real) * hy);
    lemma_scaled_order(l, size(len), (2int as real) * y);
    lemma_exchanges(l, 2int as real, y);
    lemma_scaled_order(y, (1000int as real) * l, h);
    lemma_associates(1000int as real, l, y);
    lemma_scaled_order(h, size(v), (1001int as real) / (1000int as real) * y);
    lemma_exchanges(h, (1001int as real) / (1000int as real), y);
    let rounding = (11int as real) / (10int as real) * hy;
    assert(size(q * len - v) <= rounding);
    // |q| ≤ 1.1
    let c = (11int as real) / (10int as real);
    lemma_size_of_product(q, len);
    if size(q) > c {
        lemma_strict_order(size(len), c, size(q));
        lemma_commutes(size(len), c);
        lemma_commutes(size(len), size(q));
        assert(false);
    }
    // y·(q − n) = q·(y − len) + (q·len − v) + (v − x)
    lemma_distributes(q, y, len);
    lemma_bounded_product(q, y - len, c, wide * y);
    lemma_distributes(y, q, n);
    lemma_commutes(y, q);
    lemma_size_of_product(y, q - n);
    let most = (8int as real) * delta + (10int as real) * h;
    lemma_distributes(y, (8int as real) * delta, (10int as real) * h);
    lemma_associates(8int as real, delta, y);
    lemma_associates(10int as real, h, y);
    lemma_commutes(y, most);
    assert(y * size(q - n) <= y * most);
    if size(q - n) > most {
        lemma_strict_order(y, most, size(q - n));
    }
}

/// The direction of a vector that is off by little is off by little.
pub proof fn lemma_direction_near(
    v: Vector3,
    x: (real, real, real),
    y: real,
    n: (real, real, real),
    delta: real,
    most: real,
)
    requires
        vector_within(v, most),
        0int as real <= most <= 1000000000000int as real,
        y >= shortest(),
        y * y == dot(x, x),
        x == (y * n.0, y * n.1, y * n.2),
        near(values(v), x, delta * y),
        0int as real <= delta <= (1int as real) / (1000int as real),
    ensures
        vector_within(v.direction(), 2int as real),
        near(values(v.direction()), n, (8int as real) * delta + (10int as real) * half_ulp()),
        bounded(n, 1int as real),
        v.length().finite(),
        size(value(v.length()) - y) <= ((61int as real) / (10int as real) * delta + (8int as real)
            * half_ulp()) * y,
{
    lemma_half_ulp();
    lemma_least_is_tiny();
    lemma_large();
    let (h, one) = (half_ulp(), 1int as real);
    let s = y * y;
    lemma_square(x.0);
    lemma_square(x.1);
    lemma_square(x.2);
    lemma_square(y);
    lemma_root_order(x.0, y);
    lemma_root_order(x.1, y);
    lemma_root_order(x.2, y);
    lemma_unit_component(n.0, y);
    lemma_unit_component(n.1, y);
    lemma_unit_component(n.2, y);
    let c = values(v);
    lemma_square_near(c.0, x.0, y, delta);
    lemma_square_near(c.1, x.1, y, delta);
    lemma_square_near(c.2, x.2, y, delta);
    let ds = delta * s;
    lemma_scaled_order(s, delta, one / (1000int as real));
    lemma_scaled_order(s, 0int as real, delta);
    lemma_zero(s);
    lemma_commutes(s, 0int as real);
    let d = dot(c, c);
    assert(size(d - s) <= (61int as real) / (10int as real) * ds);
    lemma_scaled_order(y, shortest(), y);
    lemma_scaled_order(shortest(), shortest(), y);
    lemma_commutes(y, shortest());
    assert(shortest() * shortest() == one / (10000000000000000int as real)) by (nonlinear_arith)
        requires
            one == 1int as real,
            shortest() == one / (100000000int as real),
    ;
    lemma_scaled_order(most, most, 1000000000000int as real);
    lemma_square(most);
    lemma_commutes(most, 1000000000000int as real);
    lemma_inner_within(v, v, most, most);
    lemma_squares_error(v, d);
    let a = v.inner(v);
    lemma_scaled_order(h, d, (11int as real) / (10int as real) * s);
    lemma_exchanges(h, (11int as real) / (10int as real), s);
    lemma_scaled_order(s, h, one / (10000int as real));
    let kappa = (61int as real) / (10int as real) * delta + (5int as real) * h;
    lemma_distributes(s, (61int as real) / (10int as real) * delta, (5int as real) * h);
    lemma_associates((61int as real) / (10int as real), delta, s);
    lemma_associates(5int as real, h, s);
    if a.negative() {
        lemma_value_of_negative(a);
    }
    lemma_root_in_range(a);
    lemma_root_near(a, y, kappa);
    let len = v.length();
    let wide = (61int as real) / (10int as real) * delta + (8int as real) * h;
    lemma_scaled_order(y, wide, one / (100int as real));
    lemma_scaled_order(size(value(len)), 2int as real, large());
    lemma_quotient_in_range(v.x, len);
    lemma_quotient_in_range(v.y, len);
    lemma_quotient_in_range(v.z, len);
    lemma_quotient_error(v.x, len);
    lemma_quotient_error(v.y, len);
    lemma_quotient_error(v.z, len);
    let (p, q, r) = (v.x.quotient(len), v.y.quotient(len), v.z.quotient(len));
    lemma_component_near(value(p), value(len), c.0, x.0, y, n.0, delta);
    lemma_component_near(value(q), value(len), c.1, x.1, y, n.1, delta);
    lemma_component_near(value(r), value(len), c.2, x.2, y, n.2, delta);
}

/// A component that is no longer than the length, divided by it.
proof fn lemma_unit_component(n: real, y: real)
    requires
        y > 0int as real,
        size(y * n) <= y,
    ensures
        size(n) <= 1int as real,
{
    lemma_size_of_product(y, n);
    if size(n) > 1int as real {
        lemma_strict_order(y, 1int as real, size(n));
        lemma_one(y);
    }
}

/// A difference of bounded vectors, component by component.
proof fn lemma_difference_near(
    a: Vector3,
    b: Vector3,
    x: (real, real, real),
    z: (real, real, real),
    off: real,
    most: real,
)
    requires
        vector_within(a, most),
        vector_within(b, most),
        near(values(a), x, off),
        near(values(b), z, off),
        0int as real <= most <= 1000000000int as real,
        0int as real <= off,
    ensures
        vector_within(a.difference(b), (4int as real) * most),
        near(
            values(a.difference(b)),
            (x.0 - z.0, x.1 - z.1, x.2 - z.2),
            (2int as real) * off + half_ulp() * ((2int as real) * most),
        ),
{
    lemma_half_ulp();
    let h = half_ulp();
    lemma_value_of_negated(b.x);
    lemma_value_of_negated(b.y);
    lemma_value_of_negated(b.z);
    lemma_sum_within(a.x, b.x.negated(), most, most);
    lemma_sum_within(a.y, b.y.negated(), most, most);
    lemma_sum_within(a.z, b.z.negated(), most, most);
    lemma_sum_error(a.x, b.x.negated());
    lemma_sum_error(a.y, b.y.negated());
    lemma_sum_error(a.z, b.z.negated());
    let two = (2int as real) * most;
    lemma_scaled_order(h, size(value(a.x) - value(b.x)), two);
    lemma_scaled_order(h, size(value(a.y) - value(b.y)), two);
    lemma_scaled_order(h, size(value(a.z) - value(b.z)), two);
}

/// A segment: exact ends, its length and its unit direction.
pub open spec fn is_segment(
    from: Vector3,
    to: Vector3,
    length: real,
    unit: (real, real, real),
) -> bool {
    let (a, b) = (values(from), values(to));
    let x = (b.0 - a.0, b.1 - a.1, b.2 - a.2);
    &&& length >= shortest()
    &&& length * length == dot(x, x)
    &&& x == (length * unit.0, length * unit.1, length * unit.2)
}

/// The direction of a segment, and its length.
proof fn lemma_segment_near(from: Vector3, to: Vector3, length: real, unit: (real, real, real))
    requires
        vector_within(from, 1000000int as real),
        vector_within(to, 1000000int as real),
        is_segment(from, to, length, unit),
    ensures
        ({
            let segment = to.difference(from);
            &&& vector_within(segment, 4000000int as real)
            &&& vector_within(segment.direction(), 2int as real)
            &&& near(values(segment.direction()), unit, (18int as real) * half_ulp())
            &&& bounded(unit, 1int as real)
            &&& segment.length().finite()
            &&& size(value(segment.length()) - length) <= ((15int as real) * half_ulp()) * length
            &&& near(
                values(segment),
                (length * unit.0, length * unit.1, length * unit.2),
                half_ulp() * length,
            )
        }),
{
    lemma_half_ulp();
    let h = half_ulp();
    let segment = to.difference(from);
    let most = 1000000int as real;
    lemma_value_of_negated(from.x);
    lemma_value_of_negated(from.y);
    lemma_value_of_negated(from.z);
    lemma_sum_within(to.x, from.x.negated(), most, most);
    lemma_sum_within(to.y, from.y.negated(), most, most);
    lemma_sum_within(to.z, from.z.negated(), most, most);
    lemma_sum_error(to.x, from.x.negated());
    lemma_sum_error(to.y, from.y.negated());
    lemma_sum_error(to.z, from.z.negated());
    let (a, b) = (values(from), values(to));
    let x = (b.0 - a.0, b.1 - a.1, b.2 - a.2);
    lemma_square(x.0);
    lemma_square(x.1);
    lemma_square(x.2);
    lemma_root_order(x.0, length);
    lemma_root_order(x.1, length);
    lemma_root_order(x.2, length);
    lemma_scaled_order(h, size(x.0), length);
    lemma_scaled_order(h, size(x.1), length);
    lemma_scaled_order(h, size(x.2), length);
    lemma_direction_near(segment, x, length, unit, h, 4000000int as real);
    lemma_scaled_order(length, (61int as real) / (10int as real) * h + (8int as real) * h, (
    15int as real) * h);
}

/// A product of two components of unit vectors.
proof fn lemma_unit_product(a: Double, b: Double, x: real, z: real)
    requires
        within(a, 2int as real),
        within(b, 2int as real),
        size(value(a) - x) <= (18int as real) * half_ulp(),
        size(value(b) - z) <= (18int as real) * half_ulp(),
        size(x) <= 1int as real,
        size(z) <= 1int as real,
    ensures
        within(a.product(b), 9int as real),
        size(value(a.product(b)) - x * z) <= (42int as real) * half_ulp(),
        size(x * z) <= 1int as real,
{
    lemma_half_ulp();
    lemma_least_is_tiny();
    let (h, one) = (half_ulp(), 1int as real);
    let (p, q) = (value(a), value(b));
    lemma_product_within(a, b, 2int as real, 2int as real);
    lemma_product_error(a, b);
    lemma_bounded_product(x, z, one, one);
    lemma_distributes(p, q, z);
    lemma_distributes(z, p, x);
    lemma_bounded_product(p, q - z, (11int as real) / (10int as real), (18int as real) * h);
    lemma_bounded_product(p - x, z, (18int as real) * h, one);
    lemma_scaled_order(h, size(p * q), 2int as real);
}

/// The cross product of two unit vectors.
proof fn lemma_normal_near(
    u: Vector3,
    v: Vector3,
    x: (real, real, real),
    z: (real, real, real),
)
    requires
        vector_within(u, 2int as real),
        vector_within(v, 2int as real),
        near(values(u), x, (18int as real) * half_ulp()),
        near(values(v), z, (18int as real) * half_ulp()),
        bounded(x, 1int as real),
        bounded(z, 1int as real),
    ensures
        vector_within(u.outer(v), 36int as real),
        near(values(u.outer(v)), cross(x, z), (90int as real) * half_ulp()),
{
    lemma_unit_product(u.y, v.z, x.1, z.2);
    lemma_unit_product(u.z, v.y, x.2, z.1);
    lemma_unit_product(u.z, v.x, x.2, z.0);
    lemma_unit_product(u.x, v.z, x.0, z.2);
    lemma_unit_product(u.x, v.y, x.0, z.1);
    lemma_unit_product(u.y, v.x, x.1, z.0);
    lemma_component_difference(u.y.product(v.z), u.z.product(v.y), x.1 * z.2, x.2 * z.1);
    lemma_component_difference(u.z.product(v.x), u.x.product(v.z), x.2 * z.0, x.0 * z.2);
    lemma_component_difference(u.x.product(v.y), u.y.product(v.x), x.0 * z.1, x.1 * z.0);
}

proof fn lemma_component_difference(a: Double, b: Double, x: real, z: real)
    requires
        within(a, 9int as real),
        within(b, 9int as real),
        size(value(a) - x) <= (42int as real) * half_ulp(),
        size(value(b) - z) <= (42int as real) * half_ulp(),
        size(x) <= 1int as real,
        size(z) <= 1int as real,
    ensures
        within(a.difference(b), 36int as real),
        size(value(a.difference(b)) - (x - z)) <= (90int as real) * half_ulp(),
{
    lemma_half_ulp();
    let h = half_ulp();
    lemma_value_of_negated(b);
    lemma_sum_within(a, b.negated(), 9int as real, 9int as real);
    lemma_sum_error(a, b.negated());
    lemma_scaled_order(h, size(value(a) - value(b)), 3int as real);
}

/// The rounding of a quotient and what is lost below the least number.
proof fn lemma_two_parts(off: real, first: real, second: real, small: real, whole: real)
    requires
        whole >= 0int as real,
        off <= first + second,
        first <= (103int as real) / (100int as real) * whole,
        second <= (2int as real) * small,
        (1000int as real) * small <= whole,
    ensures
        off <= (11int as real) / (10int as real) * whole,
{
}

/// A quotient of numbers that are off by parts of themselves.
proof fn lemma_relative_quotient(
    q: real,
    den: real,
    num: real,
    exact_q: real,
    exact_den: real,
    e: real,
    f: real,
)
    requires
        exact_q >= shortest() * shortest(),
        exact_den > 0int as real,
        size(den - exact_den) <= e * exact_den,
        size(num - exact_q * exact_den) <= f * (exact_q * exact_den),
        size(q * den - num) <= half_ulp() * size(num) + least() * size(den),
        0int as real <= e <= (1int as real) / (50int as real),
        0int as real <= f <= (1int as real) / (50int as real),
    ensures
        size(q - exact_q) <= ((2int as real) * e + (2int as real) * f + (3int as real) * half_ulp())
            * exact_q,
{
    lemma_half_ulp();
    lemma_least_is_tiny();
    let (h, l, one) = (half_ulp(), least(), 1int as real);
    assert(shortest() * shortest() == one / (10000000000000000int as real)) by (nonlinear_arith)
        requires
            one == 1int as real,
            shortest() == one / (100000000int as real),
    ;
    let (d, n) = (exact_den, exact_q * exact_den);
    lemma_strict_order(d, 0int as real, exact_q);
    lemma_zero(d);
    lemma_commutes(d, exact_q);
    assert(n > 0int as real);
    lemma_scaled_order(d, e, one / (50int as real));
    lemma_scaled_order(n, f, one / (50int as real));
    lemma_scaled_order(n, h, one / (10000int as real));
    lemma_scaled_order(n, 0int as real, h);
    lemma_scaled_order(n, 0int as real, f);
    lemma_scaled_order(n, 0int as real, e);
    lemma_zero(n);
    lemma_commutes(n, 0int as real);
    let hn = h * n;
    // l·d ≤ h·n/1000
    lemma_scaled_order(d, one / (10000000000000000int as real), exact_q);
    lemma_scaled_order(h, one / (10000000000000000int as real) * d, n);
    lemma_exchanges(h, one / (10000000000000000int as real), d);
    lemma_scaled_order(d, (10000000000000000000int as real) * l, h);
    lemma_associates(10000000000000000000int as real, l, d);
    lemma_scaled_order(l, size(den), (2int as real) * d);
    lemma_exchanges(l, 2int as real, d);
    lemma_scaled_order(h, size(num), (103int as real) / (100int as real) * n);
    lemma_exchanges(h, (103int as real) / (100int as real), n);
    let hd = h * d;
    assert(hd <= (10000000000000000int as real) * hn);
    assert((10000000000000000000int as real) * (l * d) <= hd);
    assert((1000int as real) * (l * d) <= hn);
    assert(l * size(den) <= (2int as real) * (l * d));
    assert(h * size(num) <= (103int as real) / (100int as real) * hn);
    lemma_commutes(n, h);
    lemma_two_parts(size(q * den - num), h * size(num), l * size(den), l * d, hn);
    // |q| ≤ 1.1·exact
    let c = (11int as real) / (10int as real);
    let most = c * exact_q;
    lemma_size_of_product(q, den);
    if size(q) > most {
        lemma_strict_order(size(den), most, size(q));
        lemma_commutes(size(den), size(q));
        lemma_commutes(size(den), most);
        lemma_scaled_order(most, (49int as real) / (50int as real) * d, size(den));
        lemma_associates(c, exact_q, (49int as real) / (50int as real) * d);
        lemma_exchanges(exact_q, (49int as real) / (50int as real), d);
        assert(false);
    }
    // (q − exact)·d = q·(d − den) + (q·den − num) + (num − n)
    lemma_distributes(q, d, den);
    lemma_bounded_product(q, d - den, most, e * d);
    assert(most * (e * d) == c * (e * n)) by {
        lemma_associates(c, exact_q, e * d);
        lemma_exchanges(exact_q, e, d);
    }
    lemma_distributes(d, q, exact_q);
    lemma_size_of_product(d, q - exact_q);
    let rate = (2int as real) * e + (2int as real) * f + (3int as real) * h;
    let off = rate * exact_q;
    lemma_commutes(d, q);
    lemma_distributes(n, (2int as real) * e + (2int as real) * f, (3int as real) * h);
    lemma_distributes(n, (2int as real) * e, (2int as real) * f);
    lemma_associates(2int as real, e, n);
    lemma_associates(2int as real, f, n);
    lemma_associates(3int as real, h, n);
    lemma_associates(rate, exact_q, d);
    lemma_commutes(d, off);
    assert(d * size(q - exact_q) <= d * off);
    if size(q - exact_q) > off {
        lemma_strict_order(d, off, size(q - exact_q));
    }
}

/// A point that is an offset away from another: the offset is a rounded product of a
/// direction and a distance, each off by little.
proof fn lemma_point_near(
    point: Double,
    offset: Double,
    direction: real,
    distance: real,
    exact_direction: real,
    exact_distance: real,
    e: real,
    f: real,
    reach: real,
)
    requires
        within(point, reach),
        offset.finite(),
        size(value(offset) - direction * distance) <= half_ulp() * size(direction * distance)
            + least(),
        size(direction - exact_direction) <= e,
        size(exact_direction) <= 1int as real,
        size(distance - exact_distance) <= f * exact_distance,
        0int as real <= e <= (1int as real) / (50int as real),
        0int as real <= f <= (1int as real) / (10int as real),
        shortest() * shortest() <= exact_distance <= 1000000000int as real,
        0int as real <= reach <= 1000000000int as real,
    ensures
        point.sum(offset).finite(),
        size(
            value(point.sum(offset)) - (value(point) + exact_direction * exact_distance),
        ) <= ((2int as real) * e + f + (4int as real) * half_ulp()) * exact_distance + half_ulp()
            * reach,
{
    lemma_half_ulp();
    lemma_least_is_tiny();
    let (h, l, one) = (half_ulp(), least(), 1int as real);
    let (b, t, x, d) = (direction, distance, exact_direction, exact_distance);
    assert(shortest() * shortest() == one / (10000000000000000int as real)) by (nonlinear_arith)
        requires
            one == 1int as real,
            shortest() == one / (100000000int as real),
    ;
    lemma_scaled_order(d, f, one / (10int as real));
    lemma_scaled_order(d, 0int as real, f);
    lemma_scaled_order(d, 0int as real, e);
    lemma_scaled_order(d, h, one / (10000int as real));
    lemma_scaled_order(d, e, one / (50int as real));
    lemma_zero(d);
    lemma_commutes(d, 0int as real);
    let hd = h * d;
    lemma_scaled_order(h, one / (10000000000000000int as real), d);
    assert((1000int as real) * l <= hd);
    // b·t − x·d = (b − x)·t + x·(t − d)
    let c = (11int as real) / (10int as real);
    lemma_distributes(t, b, x);
    lemma_distributes(x, t, d);
    lemma_bounded_product(b - x, t, e, c * d);
    lemma_exchanges(e, c, d);
    lemma_bounded_product(x, t - d, one, f * d);
    lemma_one(f * d);
    assert(size(b * t - x * d) <= c * (e * d) + f * d);
    lemma_bounded_product(x, d, one, d);
    lemma_one(d);
    lemma_scaled_order(h, size(b * t), (12int as real) / (10int as real) * d);
    lemma_exchanges(h, (12int as real) / (10int as real), d);
    assert(size(value(offset)) <= (13int as real) / (10int as real) * d);
    lemma_sum_within(point, offset, reach, 2000000000int as real);
    lemma_sum_error(point, offset);
    lemma_scaled_order(
        h,
        size(value(point) + value(offset)),
        reach + (13int as real) / (10int as real) * d,
    );
    lemma_distributes(h, reach, (13int as real) / (10int as real) * d);
    lemma_exchanges(h, (13int as real) / (10int as real), d);
    lemma_distributes(d, (2int as real) * e + f, (4int as real) * h);
    lemma_distributes(d, (2int as real) * e, f);
    lemma_associates(2int as real, e, d);
    lemma_associates(4int as real, h, d);
}

/// A rounded quotient of numbers that are off by parts of themselves is finite.
proof fn lemma_quotient_step(
    a: Double,
    b: Double,
    exact_q: real,
    exact_den: real,
    e: real,
    f: real,
)
    requires
        a.finite(),
        b.finite(),
        shortest() * shortest() <= exact_q <= 1000000000int as real,
        exact_den > 0int as real,
        size(value(b) - exact_den) <= e * exact_den,
        size(value(a) - exact_q * exact_den) <= f * (exact_q * exact_den),
        0int as real <= e <= (1int as real) / (50int as real),
        0int as real <= f <= (1int as real) / (50int as real),
    ensures
        a.quotient(b).finite(),
        size(value(a.quotient(b)) - exact_q) <= ((2int as real) * e + (2int as real) * f + (
        3int as real) * half_ulp()) * exact_q,
{
    lemma_large();
    let (d, n) = (exact_den, exact_q * exact_den);
    lemma_square(shortest());
    lemma_scaled_order(d, 0int as real, exact_q);
    lemma_zero(d);
    lemma_commutes(d, exact_q);
    lemma_scaled_order(d, e, (1int as real) / (50int as real));
    lemma_scaled_order(n, f, (1int as real) / (50int as real));
    lemma_scaled_order(d, exact_q, 1000000000int as real);
    lemma_scaled_order(size(value(b)), 10000000000int as real, large());
    lemma_quotient_in_range(a, b);
    lemma_quotient_error(a, b);
    lemma_relative_quotient(
        value(a.quotient(b)),
        value(b),
        value(a),
        exact_q,
        exact_den,
        e,
        f,
    );
}

/// A part of a whole, times the whole.
proof fn lemma_part(x: real, y: real)
    requires
        y > 0int as real,
    ensures
        (x / y) * y == x,
        x >= 0int as real ==> x / y >= 0int as real,
{
    let r = x / y;
    assert(r * y == x) by (nonlinear_arith)
        requires
            r == x / y,
            y > 0int as real,
    ;
    if x >= 0int as real && r < 0int as real {
        lemma_strict_order(y, r, 0int as real);
        lemma_commutes(y, r);
        lemma_zero(y);
    }
}

/// A corner, exactly: the segments before and after it with their unit directions, the
/// sine and cosine of its turn, the length of v − u, which is 2·sin(φ/2), the cosine
/// and tangent of the half turn, the axis and the bisector.
pub open spec fn is_corner(
    before: Vector3,
    here: Vector3,
    after: Vector3,
    len_in: real,
    u: (real, real, real),
    len_out: real,
    v: (real, real, real),
    sin: real,
    cos: real,
    chord: real,
    half_cos: real,
    half_tan: real,
    axis: (real, real, real),
    bisector: (real, real, real),
) -> bool {
    let one = 1int as real;
    let across = (v.0 - u.0, v.1 - u.1, v.2 - u.2);
    &&& is_segment(before, here, len_in, u)
    &&& is_segment(here, after, len_out, v)
    &&& dot(u, u) == one && dot(v, v) == one && dot(u, v) == cos
    &&& sin * sin + cos * cos == one
    &&& sin >= shortest() && chord >= shortest()
    &&& cross(u, v) == (sin * axis.0, sin * axis.1, sin * axis.2)
    &&& dot(axis, axis) == one
    &&& chord * chord == dot(across, across)
    &&& across == (chord * bisector.0, chord * bisector.1, chord * bisector.2)
    &&& half_cos > 0int as real && chord * half_cos == sin
    &&& half_tan > 0int as real && sin * half_tan == one - cos
}

/// Whether the angles that were handed in are those of the corner, to `eps` of
/// themselves.
pub open spec fn accurate_angles(
    angles: CornerAngles,
    half_cos: real,
    half_tan: real,
    eps: real,
) -> bool {
    &&& angles.half_tan.finite() && angles.half_cos.finite()
    &&& size(value(angles.half_tan) - half_tan) <= eps * half_tan
    &&& size(value(angles.half_cos) - half_cos) <= eps * half_cos
    &&& 0int as real <= eps <= (1int as real) / (200int as real)
}

/// By how much the axis of a fillet is off.
pub open spec fn axis_off(sin: real) -> real {
    (8int as real) * ((90int as real) * half_ulp() / sin) + (10int as real) * half_ulp()
}

/// By how much the center of a fillet is off.
pub open spec fn center_off(chord: real, distance: real, eps: real, reach: real) -> real {
    let direction = (8int as real) * ((40int as real) * half_ulp() / chord) + (10int as real)
        * half_ulp();
    ((2int as real) * direction + ((6int as real) * eps + (9int as real) * half_ulp()) + (4int as real)
        * half_ulp()) * distance + half_ulp() * reach
}

/// By how much the points where a fillet cuts the segments are off.
pub open spec fn cut_off(cut: real, reach: real) -> real {
    ((39int as real) * half_ulp()) * cut + half_ulp() * reach
}

/// By how much a fillet is off from the tangent arc: the part of the axis grows where
/// the turn comes near zero or a half turn, the part of the center with its distance,
/// and the rest with how far out the points lie.
pub open spec fn fillet_off(
    sin: real,
    chord: real,
    distance: real,
    cut: real,
    eps: real,
    reach: real,
) -> real {
    axis_off(sin) + center_off(chord, distance, eps, reach) + cut_off(cut, reach)
}

/// The points where a fillet cuts the segments.
proof fn lemma_cut_point(
    point: Double,
    part: Double,
    ratio: Double,
    negative: bool,
    length: real,
    unit: real,
    cut: real,
    reach: real,
)
    requires
        within(point, reach),
        0int as real <= reach <= 1000000int as real,
        within(part, 4000000int as real),
        within(ratio, 2000000000int as real),
        length > 0int as real,
        size(unit) <= 1int as real,
        size(value(part) - length * unit) <= half_ulp() * length,
        size(value(ratio) * length - cut) <= ((33int as real) * half_ulp()) * cut,
        shortest() * shortest() <= cut <= 1000000000int as real,
    ensures
        ({
            let offset = part.product(ratio);
            let end = if negative {
                point.sum(offset.negated())
            } else {
                point.sum(offset)
            };
            let exact = if negative {
                value(point) + (-cut) * unit
            } else {
                value(point) + cut * unit
            };
            size(value(end) - exact) <= cut_off(cut, reach)
        }),
{
    lemma_half_ulp();
    let h = half_ulp();
    let offset = part.product(ratio);
    lemma_product_within(part, ratio, 4000000int as real, 2000000000int as real);
    lemma_product_error(part, ratio);
    let (p, k) = (value(part), value(ratio));
    let b = p / length;
    lemma_part(p, length);
    let t = k * length;
    lemma_exchanges(b, k, length);
    lemma_commutes(k, p);
    assert(b * t == p * k);
    // |b − unit| ≤ h
    lemma_distributes(length, b, unit);
    lemma_commutes(length, b);
    lemma_size_of_product(length, b - unit);
    lemma_commutes(length, h);
    if size(b - unit) > h {
        lemma_strict_order(length, h, size(b - unit));
    }
    let f = (33int as real) * h;
    lemma_minus(b, t);
    lemma_minus(unit, cut);
    lemma_minus(cut, unit);
    lemma_commutes(unit, cut);
    lemma_value_of_negated(offset);
    if negative {
        lemma_point_near(point, offset.negated(), -b, t, -unit, cut, h, f, reach);
    } else {
        lemma_point_near(point, offset, b, t, unit, cut, h, f, reach);
    }
}

/// What a law on a fillet asks: a corner whose points are within `reach` of the
/// origin, angles that are accurate, and the exact radius and distance of the center for
/// the cut that was made.
pub open spec fn is_accurate_fillet(
    before: Vector3,
    here: Vector3,
    after: Vector3,
    angles: CornerAngles,
    radius: Double,
    len_in: real,
    u: (real, real, real),
    len_out: real,
    v: (real, real, real),
    sin: real,
    cos: real,
    chord: real,
    half_cos: real,
    half_tan: real,
    axis: (real, real, real),
    bisector: (real, real, real),
    exact_radius: real,
    distance: real,
    eps: real,
    reach: real,
) -> bool {
    &&& 0int as real <= reach <= 1000000int as real
    &&& vector_within(before, reach) && vector_within(here, reach) && vector_within(after, reach)
    &&& is_corner(
        before,
        here,
        after,
        len_in,
        u,
        len_out,
        v,
        sin,
        cos,
        chord,
        half_cos,
        half_tan,
        axis,
        bisector,
    )
    &&& accurate_angles(angles, half_cos, half_tan, eps)
    &&& corner_between(before, here, after) matches Some(corner) && {
        let cut = fillet_of(here, corner, angles, radius).cut;
        &&& cut.finite()
        &&& value(cut) == exact_radius * half_tan
        &&& exact_radius == distance * half_cos
        &&& shortest() * shortest() <= exact_radius <= 1000000000int as real
        &&& shortest() * shortest() <= distance <= 1000000000int as real
        &&& shortest() * shortest() <= value(cut) <= 1000000000int as real
        &&& len_in * (shortest() * shortest()) <= value(cut)
        &&& len_out * (shortest() * shortest()) <= value(cut)
        &&& value(cut) <= (1000000000int as real) * len_in
        &&& value(cut) <= (1000000000int as real) * len_out
    }
}

/// A segment's length into which a cut is divided.
proof fn lemma_cut_ratio(cut: Double, length: Double, exact: real)
    requires
        cut.finite(),
        length.finite(),
        exact >= shortest(),
        size(value(length) - exact) <= ((15int as real) * half_ulp()) * exact,
        exact * (shortest() * shortest()) <= value(cut),
        value(cut) <= (1000000000int as real) * exact,
        0int as real <= value(cut),
    ensures
        within(cut.quotient(length), 2000000000int as real),
        size(value(cut.quotient(length)) * exact - value(cut)) <= ((33int as real) * half_ulp())
            * value(cut),
{
    lemma_half_ulp();
    let h = half_ulp();
    let c = value(cut);
    let q = c / exact;
    lemma_part(c, exact);
    let low = shortest() * shortest();
    if q < low {
        lemma_strict_order(exact, q, low);
        lemma_commutes(exact, q);
    }
    if q > 1000000000int as real {
        lemma_strict_order(exact, 1000000000int as real, q);
        lemma_commutes(exact, q);
        lemma_commutes(exact, 1000000000int as real);
    }
    lemma_zero(0int as real);
    lemma_scaled_order(c, 0int as real, 1int as real);
    lemma_zero(c);
    lemma_commutes(c, 0int as real);
    lemma_quotient_step(cut, length, q, exact, (15int as real) * h, 0int as real);
    let k = value(cut.quotient(length));
    let rate = (2int as real) * ((15int as real) * h) + (2int as real) * (0int as real) + (
    3int as real) * h;
    assert(rate == (33int as real) * h);
    lemma_scaled_order(exact, size(k - q), rate * q);
    lemma_distributes(exact, k, q);
    lemma_size_of_product(k - q, exact);
    lemma_associates(rate, q, exact);
    lemma_scaled_order(q, rate, 1int as real);
    lemma_one(q);
}

/// A fillet is near the tangent arc: its axis, its center, and the points where it cuts
/// the segments.
#[verifier::rlimit(60)]
pub proof fn lemma_fillet_is_near_the_tangent_arc(
    before: Vector3,
    here: Vector3,
    after: Vector3,
    angles: CornerAngles,
    radius: Double,
    len_in: real,
    u: (real, real, real),
    len_out: real,
    v: (real, real, real),
    sin: real,
    cos: real,
    chord: real,
    half_cos: real,
    half_tan: real,
    axis: (real, real, real),
    bisector: (real, real, real),
    exact_radius: real,
    distance: real,
    eps: real,
    reach: real,
)
    requires
        is_accurate_fillet(
            before,
            here,
            after,
            angles,
            radius,
            len_in,
            u,
            len_out,
            v,
            sin,
            cos,
            chord,
            half_cos,
            half_tan,
            axis,
            bisector,
            exact_radius,
            distance,
            eps,
            reach,
        ),
    ensures
        corner_between(before, here, after) matches Some(corner) && ({
            let fillet = fillet_of(here, corner, angles, radius);
            let segment_in = here.difference(before);
            let segment_out = after.difference(here);
            let cut = value(fillet.cut);
            let p = values(here);
            let off = fillet_off(sin, chord, distance, cut, eps, reach);
            &&& near(values(fillet.axis), axis, off)
            &&& near(values(fillet.center), moved(p, distance, bisector), off)
            &&& near(
                values(
                    here.difference(
                        segment_in.stretched(fillet.cut.quotient(segment_in.length())),
                    ),
                ),
                moved(p, -cut, u),
                off,
            )
            &&& near(
                values(here.sum(segment_out.stretched(fillet.cut.quotient(segment_out.length())))),
                moved(p, cut, v),
                off,
            )
        }),
{
    lemma_half_ulp();
    lemma_square(shortest());
    let (h, one) = (half_ulp(), 1int as real);
    let corner = corner_between(before, here, after)->Some_0;
    let fillet = fillet_of(here, corner, angles, radius);
    let segment_in = here.difference(before);
    let segment_out = after.difference(here);
    let cut = value(fillet.cut);
    lemma_segment_near(before, here, len_in, u);
    lemma_segment_near(here, after, len_out, v);
    // The axis.
    lemma_normal_near(corner.u, corner.v, u, v);
    let n = cross(u, v);
    let delta = (90int as real) * h / sin;
    lemma_part((90int as real) * h, sin);
    lemma_small_ratio(90int as real, sin);
    lemma_square_of_product(sin, axis.0);
    lemma_square_of_product(sin, axis.1);
    lemma_square_of_product(sin, axis.2);
    lemma_three(sin * sin, axis.0 * axis.0, axis.1 * axis.1, axis.2 * axis.2);
    lemma_one(sin * sin);
    assert(sin * sin == dot(n, n));
    lemma_direction_near(corner.normal, n, sin, axis, delta, 36int as real);
    // The bisector.
    let gap = (40int as real) * h / chord;
    lemma_part((40int as real) * h, chord);
    lemma_small_ratio(40int as real, chord);
    let across = corner.v.difference(corner.u);
    lemma_difference_near(corner.v, corner.u, v, u, (18int as real) * h, 2int as real);
    let exact = (v.0 - u.0, v.1 - u.1, v.2 - u.2);
    lemma_commutes(h, 4int as real);
    lemma_direction_near(across, exact, chord, bisector, gap, 8int as real);
    let bent = across.direction();
    let e = (8int as real) * gap + (10int as real) * h;
    // The radius and the distance of the center.
    lemma_scaled_order(exact_radius, 0int as real, half_tan);
    let effective = fillet.cut.quotient(angles.half_tan);
    lemma_zero(exact_radius * half_tan);
    lemma_commutes(exact_radius * half_tan, 0int as real);
    lemma_quotient_step(fillet.cut, angles.half_tan, exact_radius, half_tan, eps, 0int as real);
    let f = (2int as real) * eps + (3int as real) * h;
    let away = effective.quotient(angles.half_cos);
    lemma_quotient_step(effective, angles.half_cos, distance, half_cos, eps, f);
    let rate = (6int as real) * eps + (9int as real) * h;
    assert(rate == (2int as real) * eps + (2int as real) * f + (3int as real) * h);
    lemma_scaled_order(distance, rate, one / (10int as real));
    // The center.
    lemma_product_within(bent.x, away, 2int as real, 2000000000int as real);
    lemma_product_within(bent.y, away, 2int as real, 2000000000int as real);
    lemma_product_within(bent.z, away, 2int as real, 2000000000int as real);
    lemma_product_error(bent.x, away);
    lemma_product_error(bent.y, away);
    lemma_product_error(bent.z, away);
    let (b, t) = (values(bent), value(away));
    lemma_point_near(here.x, bent.x.product(away), b.0, t, bisector.0, distance, e, rate, reach);
    lemma_point_near(here.y, bent.y.product(away), b.1, t, bisector.1, distance, e, rate, reach);
    lemma_point_near(here.z, bent.z.product(away), b.2, t, bisector.2, distance, e, rate, reach);
    lemma_commutes(bisector.0, distance);
    lemma_commutes(bisector.1, distance);
    lemma_commutes(bisector.2, distance);
    // The cuts.
    lemma_cut_ratio(fillet.cut, segment_in.length(), len_in);
    lemma_cut_ratio(fillet.cut, segment_out.length(), len_out);
    let (k, m) = (
        fillet.cut.quotient(segment_in.length()),
        fillet.cut.quotient(segment_out.length()),
    );
    lemma_cut_point(here.x, segment_in.x, k, true, len_in, u.0, cut, reach);
    lemma_cut_point(here.y, segment_in.y, k, true, len_in, u.1, cut, reach);
    lemma_cut_point(here.z, segment_in.z, k, true, len_in, u.2, cut, reach);
    lemma_cut_point(here.x, segment_out.x, m, false, len_out, v.0, cut, reach);
    lemma_cut_point(here.y, segment_out.y, m, false, len_out, v.1, cut, reach);
    lemma_cut_point(here.z, segment_out.z, m, false, len_out, v.2, cut, reach);
    // Each part is one of the sum.
    lemma_scaled_order(cut, 0int as real, (39int as real) * h);
    lemma_scaled_order(
        distance,
        0int as real,
        (2int as real) * e + rate + (4int as real) * h,
    );
    lemma_zero(cut);
    lemma_zero(distance);
    lemma_commutes(cut, 0int as real);
    lemma_commutes(distance, 0int as real);
    assert(axis_off(sin) >= 0int as real);
    lemma_scaled_order(reach, 0int as real, h);
    lemma_zero(reach);
    lemma_commutes(reach, h);
    assert(center_off(chord, distance, eps, reach) >= 0int as real);
    assert(cut_off(cut, reach) >= 0int as real);
}

/// A few half units are a small part of a length that a direction can be told of.
proof fn lemma_small_ratio(count: real, length: real)
    requires
        0int as real <= count <= 100int as real,
        length >= shortest(),
    ensures
        count * half_ulp() / length <= (1int as real) / (1000int as real),
        count * half_ulp() / length >= 0int as real,
{
    lemma_half_ulp();
    let h = half_ulp();
    assert(h * (9007199254740992int as real) == 1int as real);
    let x = count * h;
    lemma_scaled_order(h, count, 100int as real);
    lemma_scaled_order(h, 0int as real, count);
    lemma_zero(h);
    lemma_commutes(h, 0int as real);
    let r = x / length;
    lemma_part(x, length);
    let most = (1int as real) / (1000int as real);
    if r > most {
        lemma_strict_order(length, most, r);
        lemma_commutes(length, r);
        lemma_commutes(length, most);
        lemma_scaled_order(most, shortest(), length);
    }
}

/// Neighbouring pieces of a rounded path meet at the end of an arc: its center and the
/// offset of its start, turned through the corner, come to where the leg ends, which is
/// where the next one starts. What is left is `arc_slack` of how far the fillet is off.
pub proof fn lemma_neighbouring_pieces_meet(
    leg: Leg,
    positions: Seq<Vector3>,
    fillets: Seq<Option<CornerFillet>>,
    i: int,
    angles: CornerAngles,
    radius: Double,
    len_in: real,
    u: (real, real, real),
    len_out: real,
    v: (real, real, real),
    sin: real,
    cos: real,
    chord: real,
    half_cos: real,
    half_tan: real,
    axis: (real, real, real),
    bisector: (real, real, real),
    exact_radius: real,
    distance: real,
    eps: real,
    reach: real,
)
    requires
        follows_fillet(leg, positions, fillets, i),
        is_accurate_fillet(
            positions[i - 1],
            positions[i],
            positions[i + 1],
            angles,
            radius,
            len_in,
            u,
            len_out,
            v,
            sin,
            cos,
            chord,
            half_cos,
            half_tan,
            axis,
            bisector,
            exact_radius,
            distance,
            eps,
            reach,
        ),
        corner_between(positions[i - 1], positions[i], positions[i + 1]) matches Some(corner)
            && fillets[i] == Some(fillet_of(positions[i], corner, angles, radius)),
        fillets[i] matches Some(fillet) && rounded_off(
            exact_radius,
            fillet_off(sin, chord, distance, value(fillet.cut), eps, reach),
        ) <= 1int as real,
        leg.piece matches Some(piece) && (piece.kind matches PieceKind::Arc {
            start_offset,
            ..
        } && start_offset.x.finite() && start_offset.y.finite() && start_offset.z.finite()),
    ensures
        fillets[i] matches Some(fillet) && (leg.piece matches Some(piece) && (
        piece.kind matches PieceKind::Arc { center, start_offset, axis: hinge, sweep } && near(
            moved(
                values(center),
                1int as real,
                turned(values(start_offset), values(hinge), sin, cos),
            ),
            values(leg.to),
            arc_slack(
                exact_radius,
                rounded_off(
                    exact_radius,
                    fillet_off(sin, chord, distance, value(fillet.cut), eps, reach),
                ),
            ),
        ))),
{
    let here = positions[i];
    let fillet = fillets[i]->Some_0;
    let cut = value(fillet.cut);
    lemma_fillet_is_near_the_tangent_arc(
        positions[i - 1],
        here,
        positions[i + 1],
        angles,
        radius,
        len_in,
        u,
        len_out,
        v,
        sin,
        cos,
        chord,
        half_cos,
        half_tan,
        axis,
        bisector,
        exact_radius,
        distance,
        eps,
        reach,
    );
    let p = values(here);
    let center = moved(p, distance, bisector);
    lemma_square(shortest());
    // The exact numbers are those of a tangent arc.
    lemma_exchanges(sin, exact_radius, half_tan);
    lemma_center_relation(sin, chord, half_cos, distance, exact_radius, bisector.0);
    lemma_center_relation(sin, chord, half_cos, distance, exact_radius, bisector.1);
    lemma_center_relation(sin, chord, half_cos, distance, exact_radius, bisector.2);
    assert(is_tangent_arc(u, v, sin, cos, exact_radius, cut, axis, p, center));
    lemma_arc_ends_where_its_leg_ends(
        leg,
        positions,
        fillets,
        i,
        u,
        v,
        sin,
        cos,
        exact_radius,
        cut,
        axis,
        p,
        center,
        fillet_off(sin, chord, distance, cut, eps, reach),
    );
}

/// sin·(distance·b) = radius·(chord·b)
proof fn lemma_center_relation(
    sin: real,
    chord: real,
    half_cos: real,
    distance: real,
    radius: real,
    b: real,
)
    requires
        chord * half_cos == sin,
        radius == distance * half_cos,
    ensures
        sin * (distance * b) == radius * (chord * b),
{
    lemma_exchanges(sin, distance, b);
    lemma_associates(chord, half_cos, b);
    lemma_exchanges(chord, half_cos, b);
    lemma_associates(distance, half_cos, chord * b);
}

/// The pieces meet to 1e-9 at a corner that is neither nearly straight nor nearly a
/// reversal, for points within 10 of the origin, a radius of at most 1 and angles to
/// 1e-15.
pub proof fn lemma_pieces_meet_to_a_billionth(
    sin: real,
    chord: real,
    distance: real,
    cut: real,
    eps: real,
    reach: real,
    radius: real,
)
    requires
        sin >= (1int as real) / (10int as real),
        chord >= (1int as real) / (10int as real),
        0int as real <= distance <= 2int as real,
        0int as real <= cut <= 2int as real,
        0int as real <= eps <= (1int as real) / (1000000000000000int as real),
        0int as real <= reach <= 10int as real,
        0int as real <= radius <= 1int as real,
    ensures
        ({
            let off = rounded_off(radius, fillet_off(sin, chord, distance, cut, eps, reach));
            &&& off <= 1int as real
            &&& arc_slack(radius, off) <= billionth()
        }),
{
    lemma_half_ulp();
    let h = half_ulp();
    assert(h * (9007199254740992int as real) == 1int as real);
    lemma_tenfold((90int as real) * h, sin);
    lemma_tenfold((40int as real) * h, chord);
    let d = (8int as real) * ((40int as real) * h / chord) + (10int as real) * h;
    let rate = (2int as real) * d + ((6int as real) * eps + (9int as real) * h) + (4int as real) * h;
    lemma_scaled_order(rate, distance, 2int as real);
    lemma_scaled_order((39int as real) * h, cut, 2int as real);
    lemma_scaled_order(h, reach, 10int as real);
    lemma_scaled_order(h, radius, 1int as real);
    lemma_scaled_order(h, 0int as real, radius);
    lemma_scaled_order(h, 0int as real, reach);
    lemma_scaled_order((39int as real) * h, 0int as real, cut);
    lemma_scaled_order(rate, 0int as real, distance);
    lemma_zero(h);
    lemma_zero(rate);
    lemma_zero((39int as real) * h);
    lemma_one(h);
    let off = rounded_off(radius, fillet_off(sin, chord, distance, cut, eps, reach));
    assert(off <= (70000int as real) * h);
    lemma_scaled_order(off, (2int as real) + radius, 3int as real);
}

/// A part of a tenth or more is at most ten times as much.
proof fn lemma_tenfold(x: real, y: real)
    requires
        x >= 0int as real,
        y >= (1int as real) / (10int as real),
    ensures
        x / y <= (10int as real) * x,
        x / y >= 0int as real,
{
    let r = x / y;
    lemma_part(x, y);
    lemma_scaled_order(r, (1int as real) / (10int as real), y);
}

} // verus!
