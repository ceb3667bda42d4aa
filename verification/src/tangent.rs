//! An arc that is tangent to the two segments of a corner leads from the cut on the
//! one to the cut on the other.

use crate::connection::{lemma_offset, sets_out};
use crate::double::Double;
use crate::error::{
    half_ulp, lemma_distributes, lemma_half_ulp, lemma_scaled_order, size, value,
};
use crate::path::{follows_fillet, CornerFillet, Leg, PieceKind};
use crate::reals::{
    bounded, combined, cross, dot, lemma_associates, lemma_bounded_product, lemma_commutes,
    lemma_cross_is_orthogonal, lemma_double_cross, lemma_exchanges, lemma_minus, lemma_one,
    lemma_root_order, lemma_same_multiples, lemma_square, lemma_three, lemma_zero, values,
};
use crate::vector::Vector3;
use vstd::prelude::*;

verus! {

/// A vector turned about a unit axis, through the angle with this sine and cosine.
pub open spec fn turned(
    v: (real, real, real),
    axis: (real, real, real),
    sin: real,
    cos: real,
) -> (real, real, real) {
    combined(
        (cos * v.0, cos * v.1, cos * v.2),
        sin,
        cross(axis, v),
        ((1int as real) - cos) * dot(axis, v),
        axis,
    )
}

/// The sum of a vector and a multiple of another.
pub open spec fn moved(
    v: (real, real, real),
    factor: real,
    along: (real, real, real),
) -> (real, real, real) {
    (v.0 + factor * along.0, v.1 + factor * along.1, v.2 + factor * along.2)
}

/// A corner at `corner`, entered along the unit vector `u` and left along `v`, and
/// the arc that is tangent to both: it cuts off radius·tan(φ/2) of each segment, and
/// its center is at radius·(v − u)/sin φ from the corner.
pub open spec fn is_tangent_arc(
    u: (real, real, real),
    v: (real, real, real),
    sin: real,
    cos: real,
    radius: real,
    cut: real,
    axis: (real, real, real),
    corner: (real, real, real),
    center: (real, real, real),
) -> bool {
    &&& dot(u, u) == 1int as real
    &&& dot(v, v) == 1int as real
    &&& dot(u, v) == cos
    &&& sin * sin + cos * cos == 1int as real
    &&& sin != 0int as real
    &&& radius >= 0int as real
    &&& sin * cut == radius * ((1int as real) - cos)
    &&& cross(u, v) == (sin * axis.0, sin * axis.1, sin * axis.2)
    &&& sin * (center.0 - corner.0) == radius * (v.0 - u.0)
    &&& sin * (center.1 - corner.1) == radius * (v.1 - u.1)
    &&& sin * (center.2 - corner.2) == radius * (v.2 - u.2)
}

/// From the center of an arc to where it sets out from the segment in.
pub open spec fn start_of(
    u: (real, real, real),
    cut: real,
    corner: (real, real, real),
    center: (real, real, real),
) -> (real, real, real) {
    let from = moved(corner, -cut, u);
    (from.0 - center.0, from.1 - center.1, from.2 - center.2)
}

/// One component, times the sine: of the offset of the start and of that of the end.
proof fn lemma_scaled_offset(
    sin: real,
    cos: real,
    radius: real,
    cut: real,
    u: real,
    v: real,
    corner: real,
    center: real,
)
    requires
        sin * cut == radius * ((1int as real) - cos),
        sin * (center - corner) == radius * (v - u),
    ensures
        sin * (corner + (-cut) * u - center) == radius * (cos * u - v),
        sin * (corner + cut * v - center) == radius * (u - cos * v),
{
    let one = 1int as real;
    let m = center - corner;
    lemma_minus(cut, u);
    lemma_distributes(sin, -(cut * u), m);
    lemma_minus(sin, cut * u);
    lemma_associates(sin, cut, u);
    assert(corner + (-cut) * u - center == -(cut * u) - m);
    assert(sin * (corner + (-cut) * u - center) == -((radius * (one - cos)) * u) - radius * (v
        - u));
    lemma_distributes(sin, cut * v, m);
    lemma_associates(sin, cut, v);
    assert(corner + cut * v - center == cut * v - m);
    lemma_associates(radius, one - cos, u);
    lemma_associates(radius, one - cos, v);
    lemma_distributes(u, one, cos);
    lemma_distributes(v, one, cos);
    lemma_one(u);
    lemma_one(v);
    lemma_distributes(radius, v, u);
    lemma_distributes(radius, u, cos * u);
    lemma_distributes(radius, v, cos * v);
    lemma_distributes(radius, cos * u, v);
    lemma_distributes(radius, u, cos * v);
}

/// (s·a)·(s·b) = s²·(a·b).
proof fn lemma_scaled_product(s: real, a: real, b: real)
    by (nonlinear_arith)
    ensures
        (s * a) * (s * b) == (s * s) * (a * b),
{
}

/// One component of n × (cos·u − v), for n = u × v.
proof fn lemma_normal_component(
    n1: real,
    n2: real,
    u0: real,
    u1: real,
    u2: real,
    v0: real,
    v1: real,
    v2: real,
    sin: real,
    cos: real,
)
    requires
        u1 * n2 - u2 * n1 == u0 * cos - v0,
        v1 * n2 - v2 * n1 == u0 - v0 * cos,
        sin * sin + cos * cos == 1int as real,
    ensures
        n1 * (cos * u2 - v2) - n2 * (cos * u1 - v1) == u0 * (sin * sin),
{
    lemma_distributes(n1, cos * u2, v2);
    lemma_distributes(n2, cos * u1, v1);
    lemma_exchanges(n1, cos, u2);
    lemma_exchanges(n2, cos, u1);
    lemma_commutes(n1, u2);
    lemma_commutes(n2, u1);
    lemma_commutes(n1, v2);
    lemma_commutes(n2, v1);
    lemma_distributes(cos, u2 * n1, u1 * n2);
    assert(cos * (u2 * n1) - cos * (u1 * n2) == cos * (v0 - u0 * cos));
    lemma_distributes(cos, v0, u0 * cos);
    lemma_commutes(cos, v0);
    lemma_exchanges(cos, u0, cos);
    lemma_distributes(u0, 1int as real, cos * cos);
    lemma_one(u0);
}

/// One component of the axis times the offset of the start.
proof fn lemma_axis_component(
    sin: real,
    radius: real,
    a1: real,
    a2: real,
    o1: real,
    o2: real,
    g1: real,
    g2: real,
    u0: real,
)
    requires
        sin != 0int as real,
        sin * o1 == radius * g1,
        sin * o2 == radius * g2,
        (sin * a1) * g2 - (sin * a2) * g1 == u0 * (sin * sin),
    ensures
        a1 * o2 - a2 * o1 == radius * u0,
{
    let ss = sin * sin;
    let (n1, n2) = (sin * a1, sin * a2);
    lemma_scaled_product(sin, a1, o2);
    lemma_scaled_product(sin, a2, o1);
    lemma_distributes(ss, a1 * o2, a2 * o1);
    assert(ss * (a1 * o2 - a2 * o1) == n1 * (radius * g2) - n2 * (radius * g1));
    lemma_exchanges(n1, radius, g2);
    lemma_exchanges(n2, radius, g1);
    lemma_distributes(radius, n1 * g2, n2 * g1);
    lemma_associates(radius, u0, ss);
    lemma_commutes(ss, a1 * o2 - a2 * o1);
    lemma_square_is_no_zero(sin);
    lemma_same_multiples(a1 * o2 - a2 * o1, radius * u0, ss);
}

proof fn lemma_square_is_no_zero(a: real)
    by (nonlinear_arith)
    requires
        a != 0int as real,
    ensures
        a * a != 0int as real,
{
}

/// One component of the turned offset.
proof fn lemma_turned_component(
    sin: real,
    cos: real,
    radius: real,
    u0: real,
    v0: real,
    start: real,
    end: real,
)
    requires
        sin != 0int as real,
        sin * sin + cos * cos == 1int as real,
        sin * start == radius * (cos * u0 - v0),
        sin * end == radius * (u0 - cos * v0),
    ensures
        cos * start + sin * (radius * u0) == end,
{
    let sum = cos * start + sin * (radius * u0);
    lemma_distributes(sin, cos * start, sin * (radius * u0));
    lemma_exchanges(sin, cos, start);
    lemma_exchanges(cos, radius, cos * u0 - v0);
    lemma_distributes(cos, cos * u0, v0);
    lemma_associates(cos, cos, u0);
    lemma_associates(sin, sin, radius * u0);
    lemma_exchanges(sin * sin, radius, u0);
    lemma_distributes(radius, (cos * cos) * u0 - cos * v0, (sin * sin) * u0);
    lemma_distributes(u0, cos * cos, sin * sin);
    lemma_one(u0);
    assert(sin * sum == radius * (u0 - cos * v0));
    lemma_commutes(sin, sum);
    lemma_commutes(sin, end);
    lemma_same_multiples(sum, end, sin);
}

/// The inner product of two vectors, of which each is known times the sine.
proof fn lemma_scaled_dot(
    sin: real,
    a: (real, real, real),
    o: (real, real, real),
    n: (real, real, real),
    radius: real,
    g: (real, real, real),
)
    requires
        n == (sin * a.0, sin * a.1, sin * a.2),
        sin * o.0 == radius * g.0,
        sin * o.1 == radius * g.1,
        sin * o.2 == radius * g.2,
    ensures
        (sin * sin) * dot(a, o) == radius * dot(n, g),
{
    lemma_scaled_product(sin, a.0, o.0);
    lemma_scaled_product(sin, a.1, o.1);
    lemma_scaled_product(sin, a.2, o.2);
    lemma_three(sin * sin, a.0 * o.0, a.1 * o.1, a.2 * o.2);
    lemma_exchanges(n.0, radius, g.0);
    lemma_exchanges(n.1, radius, g.1);
    lemma_exchanges(n.2, radius, g.2);
    lemma_three(radius, n.0 * g.0, n.1 * g.1, n.2 * g.2);
}

/// What u × v is to u and v.
proof fn lemma_normal(u: (real, real, real), v: (real, real, real), cos: real)
    requires
        dot(u, u) == 1int as real,
        dot(v, v) == 1int as real,
        dot(u, v) == cos,
    ensures
        cross(u, cross(u, v)).0 == u.0 * cos - v.0,
        cross(u, cross(u, v)).1 == u.1 * cos - v.1,
        cross(u, cross(u, v)).2 == u.2 * cos - v.2,
        cross(v, cross(u, v)).0 == u.0 - v.0 * cos,
        cross(v, cross(u, v)).1 == u.1 - v.1 * cos,
        cross(v, cross(u, v)).2 == u.2 - v.2 * cos,
        dot(u, cross(u, v)) == 0int as real,
        dot(v, cross(u, v)) == 0int as real,
{
    let n = cross(u, v);
    let b = cross(v, u);
    lemma_double_cross(u, v);
    lemma_double_cross(v, u);
    lemma_cross_is_orthogonal(u, v);
    lemma_cross_is_orthogonal(v, u);
    lemma_commutes(u.0, v.0);
    lemma_commutes(u.1, v.1);
    lemma_commutes(u.2, v.2);
    lemma_commutes(u.0, v.1);
    lemma_commutes(u.0, v.2);
    lemma_commutes(u.1, v.0);
    lemma_commutes(u.1, v.2);
    lemma_commutes(u.2, v.0);
    lemma_commutes(u.2, v.1);
    assert(n.0 == -b.0 && n.1 == -b.1 && n.2 == -b.2);
    lemma_one(u.0);
    lemma_one(u.1);
    lemma_one(u.2);
    lemma_one(v.0);
    lemma_one(v.1);
    lemma_one(v.2);
    lemma_minus(v.0, b.0);
    lemma_minus(v.0, b.1);
    lemma_minus(v.0, b.2);
    lemma_minus(v.1, b.0);
    lemma_minus(v.1, b.1);
    lemma_minus(v.1, b.2);
    lemma_minus(v.2, b.0);
    lemma_minus(v.2, b.1);
    lemma_minus(v.2, b.2);
}

/// The offsets of a tangent arc: the axis is at right angles to that of the start, and
/// the axis times it is along the segment in.
proof fn lemma_axis_and_start(
    u: (real, real, real),
    v: (real, real, real),
    sin: real,
    cos: real,
    radius: real,
    cut: real,
    axis: (real, real, real),
    corner: (real, real, real),
    center: (real, real, real),
)
    requires
        is_tangent_arc(u, v, sin, cos, radius, cut, axis, corner, center),
    ensures
        ({
            let start = start_of(u, cut, corner, center);
            &&& dot(axis, start) == 0int as real
            &&& cross(axis, start) == (radius * u.0, radius * u.1, radius * u.2)
            &&& sin * start.0 == radius * (cos * u.0 - v.0)
            &&& sin * start.1 == radius * (cos * u.1 - v.1)
            &&& sin * start.2 == radius * (cos * u.2 - v.2)
        }),
{
    let start = start_of(u, cut, corner, center);
    let n = cross(u, v);
    let g = (cos * u.0 - v.0, cos * u.1 - v.1, cos * u.2 - v.2);
    lemma_scaled_offset(sin, cos, radius, cut, u.0, v.0, corner.0, center.0);
    lemma_scaled_offset(sin, cos, radius, cut, u.1, v.1, corner.1, center.1);
    lemma_scaled_offset(sin, cos, radius, cut, u.2, v.2, corner.2, center.2);
    lemma_normal(u, v, cos);
    lemma_normal_component(n.1, n.2, u.0, u.1, u.2, v.0, v.1, v.2, sin, cos);
    lemma_normal_component(n.2, n.0, u.1, u.2, u.0, v.1, v.2, v.0, sin, cos);
    lemma_normal_component(n.0, n.1, u.2, u.0, u.1, v.2, v.0, v.1, sin, cos);
    lemma_axis_component(sin, radius, axis.1, axis.2, start.1, start.2, g.1, g.2, u.0);
    lemma_axis_component(sin, radius, axis.2, axis.0, start.2, start.0, g.2, g.0, u.1);
    lemma_axis_component(sin, radius, axis.0, axis.1, start.0, start.1, g.0, g.1, u.2);
    // n·(cos·u − v) = 0
    lemma_scaled_dot(sin, axis, start, n, radius, g);
    lemma_dot_of_difference(n, cos, u, v);
    lemma_zero(cos);
    lemma_zero(radius);
    let ss = sin * sin;
    lemma_square_is_no_zero(sin);
    lemma_commutes(ss, dot(axis, start));
    lemma_zero(ss);
    lemma_commutes(ss, 0int as real);
    lemma_same_multiples(dot(axis, start), 0int as real, ss);
}

proof fn lemma_dot_of_difference(
    n: (real, real, real),
    cos: real,
    u: (real, real, real),
    v: (real, real, real),
)
    ensures
        dot(n, (cos * u.0 - v.0, cos * u.1 - v.1, cos * u.2 - v.2)) == cos * dot(u, n) - dot(v, n),
{
    lemma_distributes(n.0, cos * u.0, v.0);
    lemma_distributes(n.1, cos * u.1, v.1);
    lemma_distributes(n.2, cos * u.2, v.2);
    lemma_exchanges(n.0, cos, u.0);
    lemma_exchanges(n.1, cos, u.1);
    lemma_exchanges(n.2, cos, u.2);
    lemma_commutes(n.0, u.0);
    lemma_commutes(n.1, u.1);
    lemma_commutes(n.2, u.2);
    lemma_commutes(n.0, v.0);
    lemma_commutes(n.1, v.1);
    lemma_commutes(n.2, v.2);
    lemma_three(cos, u.0 * n.0, u.1 * n.1, u.2 * n.2);
}

/// A tangent arc leads from the cut on the segment in to the cut on the segment out:
/// its center and the offset of its start, turned through the angle of the corner,
/// add up to the point where the path leaves the corner.
pub proof fn lemma_tangent_arc_leads_across_the_corner(
    u: (real, real, real),
    v: (real, real, real),
    sin: real,
    cos: real,
    radius: real,
    cut: real,
    axis: (real, real, real),
    corner: (real, real, real),
    center: (real, real, real),
)
    requires
        is_tangent_arc(u, v, sin, cos, radius, cut, axis, corner, center),
    ensures
        moved(center, 1int as real, turned(start_of(u, cut, corner, center), axis, sin, cos))
            == moved(corner, cut, v),
{
    let start = start_of(u, cut, corner, center);
    let end = moved(corner, cut, v);
    lemma_axis_and_start(u, v, sin, cos, radius, cut, axis, corner, center);
    lemma_scaled_offset(sin, cos, radius, cut, u.0, v.0, corner.0, center.0);
    lemma_scaled_offset(sin, cos, radius, cut, u.1, v.1, corner.1, center.1);
    lemma_scaled_offset(sin, cos, radius, cut, u.2, v.2, corner.2, center.2);
    lemma_turned_component(sin, cos, radius, u.0, v.0, start.0, end.0 - center.0);
    lemma_turned_component(sin, cos, radius, u.1, v.1, start.1, end.1 - center.1);
    lemma_turned_component(sin, cos, radius, u.2, v.2, start.2, end.2 - center.2);
    lemma_zero((1int as real) - cos);
    lemma_zero(axis.0);
    lemma_zero(axis.1);
    lemma_zero(axis.2);
    lemma_commutes(axis.0, 0int as real);
    lemma_commutes(axis.1, 0int as real);
    lemma_commutes(axis.2, 0int as real);
    let back = turned(start, axis, sin, cos);
    lemma_one(back.0);
    lemma_one(back.1);
    lemma_one(back.2);
}

/// (u × v)·n = u·(v × n).
proof fn lemma_triple_product(
    u: (real, real, real),
    v: (real, real, real),
    n: (real, real, real),
)
    ensures
        dot(cross(u, v), n) == dot(u, cross(v, n)),
{
    lemma_distributes(n.0, u.1 * v.2, u.2 * v.1);
    lemma_distributes(n.1, u.2 * v.0, u.0 * v.2);
    lemma_distributes(n.2, u.0 * v.1, u.1 * v.0);
    lemma_distributes(u.0, v.1 * n.2, v.2 * n.1);
    lemma_distributes(u.1, v.2 * n.0, v.0 * n.2);
    lemma_distributes(u.2, v.0 * n.1, v.1 * n.0);
    lemma_associates(u.1, v.2, n.0);
    lemma_associates(u.2, v.1, n.0);
    lemma_associates(u.2, v.0, n.1);
    lemma_associates(u.0, v.2, n.1);
    lemma_associates(u.0, v.1, n.2);
    lemma_associates(u.1, v.0, n.2);
}

/// No component of a vector is larger than its length.
proof fn lemma_components(v: (real, real, real), length: real)
    requires
        dot(v, v) == length * length,
        length >= 0int as real,
    ensures
        bounded(v, length),
{
    lemma_square(v.0);
    lemma_square(v.1);
    lemma_square(v.2);
    lemma_root_order(v.0, length);
    lemma_root_order(v.1, length);
    lemma_root_order(v.2, length);
}

/// The axis has length one, and the offset of the start that of the radius.
proof fn lemma_lengths(
    u: (real, real, real),
    v: (real, real, real),
    sin: real,
    cos: real,
    radius: real,
    cut: real,
    axis: (real, real, real),
    corner: (real, real, real),
    center: (real, real, real),
)
    requires
        is_tangent_arc(u, v, sin, cos, radius, cut, axis, corner, center),
    ensures
        dot(axis, axis) == 1int as real,
        dot(start_of(u, cut, corner, center), start_of(u, cut, corner, center)) == radius * radius,
{
    let one = 1int as real;
    let ss = sin * sin;
    let start = start_of(u, cut, corner, center);
    let n = cross(u, v);
    let g = (cos * u.0 - v.0, cos * u.1 - v.1, cos * u.2 - v.2);
    lemma_square_is_no_zero(sin);
    lemma_axis_and_start(u, v, sin, cos, radius, cut, axis, corner, center);
    // |n|² = u·(v × n) = 1 − cos²
    lemma_normal(u, v, cos);
    lemma_triple_product(u, v, n);
    lemma_distributes(u.0, u.0, v.0 * cos);
    lemma_distributes(u.1, u.1, v.1 * cos);
    lemma_distributes(u.2, u.2, v.2 * cos);
    lemma_associates(u.0, v.0, cos);
    lemma_associates(u.1, v.1, cos);
    lemma_associates(u.2, v.2, cos);
    lemma_three(cos, u.0 * v.0, u.1 * v.1, u.2 * v.2);
    lemma_commutes(cos, u.0 * v.0);
    lemma_commutes(cos, u.1 * v.1);
    lemma_commutes(cos, u.2 * v.2);
    assert(dot(n, n) == ss);
    lemma_one(n.0);
    lemma_one(n.1);
    lemma_one(n.2);
    lemma_one(ss);
    lemma_scaled_dot(sin, axis, axis, n, one, n);
    lemma_commutes(ss, dot(axis, axis));
    lemma_same_multiples(dot(axis, axis), one, ss);
    // |cos·u − v|² = 1 − cos²
    lemma_dot_of_difference(g, cos, u, v);
    lemma_dot_of_difference(u, cos, u, v);
    lemma_dot_of_difference(v, cos, u, v);
    lemma_commutes(u.0, v.0);
    lemma_commutes(u.1, v.1);
    lemma_commutes(u.2, v.2);
    lemma_one(cos);
    lemma_zero(cos);
    assert(dot(g, g) == ss);
    let x = (sin * start.0, sin * start.1, sin * start.2);
    lemma_scaled_dot(sin, start, start, x, radius, g);
    lemma_associates(radius, g.0, g.0);
    lemma_associates(radius, g.1, g.1);
    lemma_associates(radius, g.2, g.2);
    lemma_three(radius, g.0 * g.0, g.1 * g.1, g.2 * g.2);
    lemma_associates(radius, radius, ss);
    lemma_commutes(ss, dot(start, start));
    lemma_same_multiples(dot(start, start), radius * radius, ss);
}

/// Whether no component of two vectors differs by more than a bound.
pub open spec fn near(a: (real, real, real), b: (real, real, real), off: real) -> bool {
    bounded((a.0 - b.0, a.1 - b.1, a.2 - b.2), off)
}

/// How far two products differ whose factors differ by no more than `off`.
proof fn lemma_product_gap(x: real, x1: real, y: real, y1: real, off: real, reach: real)
    requires
        size(x - x1) <= off,
        size(y - y1) <= off,
        size(x) <= 2int as real,
        size(y1) <= reach,
    ensures
        size(x * y - x1 * y1) <= ((2int as real) + reach) * off,
{
    lemma_distributes(x, y, y1);
    lemma_distributes(y1, x, x1);
    lemma_bounded_product(x, y - y1, 2int as real, off);
    lemma_bounded_product(x - x1, y1, off, reach);
    lemma_commutes(off, reach);
    lemma_distributes(off, 2int as real, reach);
}

/// One component of a turned vector, for an axis and a vector that are off by little.
proof fn lemma_turned_gap(
    o0: real,
    p0: real,
    sin: real,
    cos: real,
    across: real,
    exact_across: real,
    along: real,
    a0: real,
    off: real,
    gap: real,
)
    requires
        size(o0 - p0) <= off,
        size(sin) <= 1int as real,
        size(cos) <= 1int as real,
        size(across - exact_across) <= (2int as real) * gap,
        size(along) <= (3int as real) * gap,
        size(a0) <= 2int as real,
    ensures
        size(
            (cos * o0 + sin * across + (((1int as real) - cos) * along) * a0) - (cos * p0 + sin
                * exact_across),
        ) <= off + (14int as real) * gap,
{
    let (one, two) = (1int as real, 2int as real);
    lemma_distributes(cos, o0, p0);
    lemma_bounded_product(cos, o0 - p0, one, off);
    lemma_one(off);
    lemma_distributes(sin, across, exact_across);
    lemma_bounded_product(sin, across - exact_across, one, two * gap);
    lemma_one(two * gap);
    lemma_bounded_product(one - cos, along, two, (3int as real) * gap);
    lemma_bounded_product((one - cos) * along, a0, two * ((3int as real) * gap), two);
}

/// A vector turned about an axis is off by little where the two are: the axis has
/// length one and is at right angles to the vector, which is no longer than `reach`.
proof fn lemma_turned_near(
    o: (real, real, real),
    p: (real, real, real),
    a: (real, real, real),
    b: (real, real, real),
    sin: real,
    cos: real,
    off: real,
    reach: real,
)
    requires
        near(o, p, off),
        near(a, b, off),
        off <= 1int as real,
        bounded(b, 1int as real),
        bounded(p, reach),
        dot(b, p) == 0int as real,
        sin * sin + cos * cos == 1int as real,
    ensures
        near(
            turned(o, a, sin, cos),
            turned(p, b, sin, cos),
            off + (14int as real) * (((2int as real) + reach) * off),
        ),
{
    let one = 1int as real;
    let gap = ((2int as real) + reach) * off;
    lemma_square(sin);
    lemma_square(cos);
    lemma_one(one);
    lemma_root_order(sin, one);
    lemma_root_order(cos, one);
    lemma_product_gap(a.0, b.0, o.0, p.0, off, reach);
    lemma_product_gap(a.0, b.0, o.1, p.1, off, reach);
    lemma_product_gap(a.0, b.0, o.2, p.2, off, reach);
    lemma_product_gap(a.1, b.1, o.0, p.0, off, reach);
    lemma_product_gap(a.1, b.1, o.1, p.1, off, reach);
    lemma_product_gap(a.1, b.1, o.2, p.2, off, reach);
    lemma_product_gap(a.2, b.2, o.0, p.0, off, reach);
    lemma_product_gap(a.2, b.2, o.1, p.1, off, reach);
    lemma_product_gap(a.2, b.2, o.2, p.2, off, reach);
    let (x, y, d) = (cross(a, o), cross(b, p), dot(a, o));
    assert(size(d) <= (3int as real) * gap);
    lemma_turned_gap(o.0, p.0, sin, cos, x.0, y.0, d, a.0, off, gap);
    lemma_turned_gap(o.1, p.1, sin, cos, x.1, y.1, d, a.1, off, gap);
    lemma_turned_gap(o.2, p.2, sin, cos, x.2, y.2, d, a.2, off, gap);
    lemma_zero(one - cos);
    lemma_zero(b.0);
    lemma_zero(b.1);
    lemma_zero(b.2);
    lemma_commutes(b.0, 0int as real);
    lemma_commutes(b.1, 0int as real);
    lemma_commutes(b.2, 0int as real);
}

/// How far an arc may end from where its leg ends, for numbers that are `off` from
/// those of a tangent arc.
pub open spec fn arc_slack(radius: real, off: real) -> real {
    (3int as real) * off + (14int as real) * (((2int as real) + radius) * off)
}

/// What is left of `off` after the offset of the start is rounded.
pub open spec fn rounded_off(radius: real, off: real) -> real {
    (3int as real) * off + half_ulp() * radius
}

/// One component of the rounded offset of the start.
proof fn lemma_offset_near(
    from: Double,
    center: Double,
    offset: Double,
    start: real,
    exact_center: real,
    off: real,
    radius: real,
)
    requires
        sets_out(center, offset, from),
        size(value(from) - (start + exact_center)) <= off,
        size(value(center) - exact_center) <= off,
        size(start) <= radius,
    ensures
        size(value(offset) - start) <= rounded_off(radius, off),
{
    lemma_half_ulp();
    let (h, two) = (half_ulp(), 2int as real);
    let gap = value(from) - value(center);
    assert(size(gap) <= radius + two * off);
    lemma_scaled_order(h, size(gap), radius + two * off);
    lemma_distributes(h, radius, two * off);
    lemma_scaled_order(two * off, (10int as real) * h, 1int as real);
    lemma_one(two * off);
    lemma_associates(10int as real, h, two * off);
    lemma_commutes(h, two * off);
}

/// An arc ends where its leg ends, and so where the next leg starts, as exactly as its
/// numbers are those of a tangent arc. `off` says how far they are from it: the cut
/// points, the center and the axis. Sine and cosine are those of the corner's turn.
pub proof fn lemma_arc_ends_where_its_leg_ends(
    leg: Leg,
    positions: Seq<Vector3>,
    fillets: Seq<Option<CornerFillet>>,
    i: int,
    u: (real, real, real),
    v: (real, real, real),
    sin: real,
    cos: real,
    radius: real,
    cut: real,
    axis: (real, real, real),
    corner: (real, real, real),
    center: (real, real, real),
    off: real,
)
    requires
        follows_fillet(leg, positions, fillets, i),
        is_tangent_arc(u, v, sin, cos, radius, cut, axis, corner, center),
        near(values(leg.from), moved(corner, -cut, u), off),
        near(values(leg.to), moved(corner, cut, v), off),
        fillets[i] matches Some(fillet) && near(values(fillet.center), center, off) && near(
            values(fillet.axis),
            axis,
            off,
        ),
        rounded_off(radius, off) <= 1int as real,
        leg.piece matches Some(piece) && (piece.kind matches PieceKind::Arc {
            start_offset,
            ..
        } && start_offset.x.finite() && start_offset.y.finite() && start_offset.z.finite()),
    ensures
        leg.piece matches Some(piece) && (piece.kind matches PieceKind::Arc {
            center: pivot,
            start_offset,
            axis: hinge,
            sweep,
        } && near(
            moved(
                values(pivot),
                1int as real,
                turned(values(start_offset), values(hinge), sin, cos),
            ),
            values(leg.to),
            arc_slack(radius, rounded_off(radius, off)),
        )),
{
    let one = 1int as real;
    let piece = leg.piece->Some_0;
    let pivot = piece.kind->Arc_center;
    let offset = piece.kind->start_offset;
    let hinge = piece.kind->axis;
    let start = start_of(u, cut, corner, center);
    let most = rounded_off(radius, off);
    lemma_half_ulp();
    lemma_scaled_order(radius, 0int as real, half_ulp());
    lemma_zero(radius);
    lemma_commutes(radius, half_ulp());
    lemma_commutes(radius, 0int as real);
    lemma_offset(leg.from.x, pivot.x);
    lemma_offset(leg.from.y, pivot.y);
    lemma_offset(leg.from.z, pivot.z);
    lemma_axis_and_start(u, v, sin, cos, radius, cut, axis, corner, center);
    lemma_lengths(u, v, sin, cos, radius, cut, axis, corner, center);
    lemma_one(one);
    lemma_components(axis, one);
    lemma_components(start, radius);
    lemma_offset_near(leg.from.x, pivot.x, offset.x, start.0, center.0, off, radius);
    lemma_offset_near(leg.from.y, pivot.y, offset.y, start.1, center.1, off, radius);
    lemma_offset_near(leg.from.z, pivot.z, offset.z, start.2, center.2, off, radius);
    lemma_turned_near(values(offset), start, values(hinge), axis, sin, cos, most, radius);
    lemma_tangent_arc_leads_across_the_corner(
        u,
        v,
        sin,
        cos,
        radius,
        cut,
        axis,
        corner,
        center,
    );
    let back = turned(values(offset), values(hinge), sin, cos);
    let exact = turned(start, axis, sin, cos);
    lemma_one(back.0);
    lemma_one(back.1);
    lemma_one(back.2);
    lemma_one(exact.0);
    lemma_one(exact.1);
    lemma_one(exact.2);
}

} // verus!
