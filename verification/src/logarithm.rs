//! The logarithm of a rigid motion is undone by the exponential: the left Jacobian
//! takes its linear part back to the translation.

use crate::double::{Double, HALF, ONE};
use crate::error::{
    half_ulp, least, lemma_distributes, lemma_half_ulp, lemma_least, lemma_least_is_small,
    lemma_product_error, lemma_scaled_order, lemma_sum_error,
    lemma_value_of_zero, size, value,
};
use crate::finiteness::{lemma_parts_of_product, lemma_parts_of_sum};
use crate::kinematics::{hat, inverse_left_jacobian};
use crate::reals::{
    bounded, combined, cross, dot, lemma_associates, lemma_bounded_product, lemma_cancels,
    lemma_commutes, lemma_cross_is_orthogonal, lemma_double_cross, lemma_exchanges, lemma_minus,
    lemma_one, lemma_same_multiples, lemma_square, lemma_three, lemma_zero, values,
};
use crate::slip::{
    lemma_tenth, lemma_value_of_half, lemma_value_of_negated, lemma_value_of_one,
};
use crate::vector::Vector3;
use vstd::prelude::*;

verus! {

/// I + p·ω̂ + q·ω̂², applied to a vector.
pub open spec fn series(
    omega: (real, real, real),
    p: real,
    q: real,
    v: (real, real, real),
) -> (real, real, real) {
    combined(v, p, cross(omega, v), q, cross(omega, cross(omega, v)))
}

/// The angle θ of a rotation vector, its sine and cosine, and the factors of the left
/// Jacobian I + first·ω̂ + second·ω̂², by which the exponential of a twist maps its
/// linear part to the translation: first = (1 − cos θ)/θ², second = (θ − sin θ)/θ³.
/// The coefficient of ω̂² in the inverse I − ½·ω̂ + κ·ω̂² is
/// κ = 1/θ² − sin θ/(2·θ·(1 − cos θ)), which is 1/θ² − (1 + cos θ)/(2·θ·sin θ) off the
/// half turn. At the angle zero each factor is its limit.
pub open spec fn describes_rotation(
    omega: (real, real, real),
    angle: real,
    sin: real,
    cos: real,
    first: real,
    second: real,
    coefficient: real,
) -> bool {
    let one = 1int as real;
    let two = 2int as real;
    let square = angle * angle;
    &&& angle >= 0int as real
    &&& square == dot(omega, omega)
    &&& sin * sin + cos * cos == one
    &&& if angle > 0int as real {
        &&& cos != one
        &&& first * square == one - cos
        &&& (second * square) * angle == angle - sin
        &&& two * ((one - cos) * (coefficient * square)) == two * (one - cos) - angle * sin
    } else {
        &&& cos == one
        &&& first == one / two
        &&& second == one / (6int as real)
        &&& coefficient == one / (12int as real)
    }
}

proof fn lemma_linear_part(
    m: real,
    n: real,
    v: real,
    u: real,
    p: real,
    a: real,
    c: real,
    q: real,
    b: real,
    d: real,
)
    ensures
        m * (u + p * c + q * d) - n * (v + p * a + q * b) == (m * u - n * v) + p * (m * c - n * a)
            + q * (m * d - n * b),
{
    lemma_three(m, u, p * c, q * d);
    lemma_three(n, v, p * a, q * b);
    lemma_exchanges(m, p, c);
    lemma_exchanges(m, q, d);
    lemma_exchanges(n, p, a);
    lemma_exchanges(n, q, b);
    lemma_distributes(p, m * c, n * a);
    lemma_distributes(q, m * d, n * b);
}

/// The cross product is linear.
proof fn lemma_cross_is_linear(
    w: (real, real, real),
    v: (real, real, real),
    p: real,
    a: (real, real, real),
    q: real,
    b: (real, real, real),
)
    ensures
        cross(w, combined(v, p, a, q, b)) == combined(cross(w, v), p, cross(w, a), q, cross(w, b)),
{
    lemma_linear_part(w.1, w.2, v.1, v.2, p, a.1, a.2, q, b.1, b.2);
    lemma_linear_part(w.2, w.0, v.2, v.0, p, a.2, a.0, q, b.2, b.0);
    lemma_linear_part(w.0, w.1, v.0, v.1, p, a.0, a.1, q, b.0, b.1);
}

/// p·(k·(a·s)) = (p·(k·s))·a.
proof fn lemma_gathers(p: real, k: real, a: real, s: real)
    ensures
        p * (k * (a * s)) == (p * (k * s)) * a,
{
    lemma_commutes(a, s);
    lemma_associates(k, s, a);
    lemma_associates(p, k * s, a);
}

/// The factors of one component, collected: c and d are −a·θ² and −b·θ².
proof fn lemma_collected(
    t: real,
    a: real,
    b: real,
    c: real,
    d: real,
    square: real,
    p: real,
    q: real,
    r: real,
    k: real,
)
    requires
        c == -(a * square),
        d == -(b * square),
    ensures
        (t + r * a + k * b) + p * (a + r * b + k * c) + q * (b + r * c + k * d) == t + (r + p - p
            * (k * square) - q * (r * square)) * a + (k + p * r + q - q * (k * square)) * b,
{
    lemma_three(p, a, r * b, k * c);
    lemma_three(q, b, r * c, k * d);
    lemma_minus(k, a * square);
    lemma_minus(r, a * square);
    lemma_minus(k, b * square);
    lemma_minus(p, k * (a * square));
    lemma_minus(q, r * (a * square));
    lemma_minus(q, k * (b * square));
    lemma_gathers(p, k, a, square);
    lemma_gathers(q, r, a, square);
    lemma_gathers(q, k, b, square);
    lemma_associates(p, r, b);
    let (f, g, h) = (p * (k * square), q * (r * square), q * (k * square));
    lemma_distributes(a, r + p - f, g);
    lemma_distributes(a, r + p, f);
    lemma_distributes(a, r, p);
    lemma_distributes(b, k + p * r + q, h);
    lemma_distributes(b, k + p * r, q);
    lemma_distributes(b, k, p * r);
}

/// The product of two such series, on the vectors ω × t and ω × (ω × t): ω̂³ is
/// −θ²·ω̂.
proof fn lemma_series_of_series(
    w: (real, real, real),
    square: real,
    p: real,
    q: real,
    r: real,
    k: real,
    t: (real, real, real),
)
    requires
        square == dot(w, w),
    ensures
        series(w, p, q, series(w, r, k, t)) == combined(
            t,
            r + p - p * (k * square) - q * (r * square),
            cross(w, t),
            k + p * r + q - q * (k * square),
            cross(w, cross(w, t)),
        ),
{
    let a = cross(w, t);
    let b = cross(w, a);
    let c = cross(w, b);
    let d = cross(w, c);
    let v = combined(t, r, a, k, b);
    lemma_cross_is_linear(w, t, r, a, k, b);
    lemma_cross_is_linear(w, a, r, b, k, c);
    lemma_double_cross(w, a);
    lemma_double_cross(w, b);
    lemma_cross_is_orthogonal(w, t);
    lemma_cross_is_orthogonal(w, a);
    lemma_zero(w.0);
    lemma_zero(w.1);
    lemma_zero(w.2);
    assert(c.0 == -(a.0 * square) && c.1 == -(a.1 * square) && c.2 == -(a.2 * square));
    assert(d.0 == -(b.0 * square) && d.1 == -(b.1 * square) && d.2 == -(b.2 * square));
    assert(cross(w, v) == combined(a, r, b, k, c));
    assert(cross(w, cross(w, v)) == combined(b, r, c, k, d));
    lemma_collected(t.0, a.0, b.0, c.0, d.0, square, p, q, r, k);
    lemma_collected(t.1, a.1, b.1, c.1, d.1, square, p, q, r, k);
    lemma_collected(t.2, a.2, b.2, c.2, d.2, square, p, q, r, k);
}

/// The left Jacobian undoes its inverse: what the exponential makes of the linear part
/// is the translation. Where the coefficient of the inverse is off by `off`, what
/// comes back is off by that times −(1 − cos θ)·ω × t + ratio·ω × (ω × t), with the
/// ratio sin θ / θ.
pub proof fn lemma_left_jacobian_undoes_its_inverse(
    omega: (real, real, real),
    angle: real,
    sin: real,
    cos: real,
    first: real,
    second: real,
    coefficient: real,
    off: real,
    ratio: real,
    t: (real, real, real),
)
    requires
        describes_rotation(omega, angle, sin, cos, first, second, coefficient),
        ratio * angle == sin,
    ensures
        ({
            let half = (1int as real) / (2int as real);
            series(omega, first, second, series(omega, -half, coefficient + off, t)) == combined(
                t,
                -(((1int as real) - cos) * off),
                cross(omega, t),
                ratio * off,
                cross(omega, cross(omega, t)),
            )
        }),
{
    let (one, two) = (1int as real, 2int as real);
    let half = one / two;
    let square = angle * angle;
    let k = coefficient + off;
    if angle == 0int as real {
        lemma_zero(angle);
        lemma_no_turn(omega, first, second, -half, k, t);
        let (m, r) = (-((one - cos) * off), ratio * off);
        lemma_no_turn(omega, m, r, m, r, t);
    } else {
        // second·θ² = 1 − ratio
        lemma_distributes(angle, one, ratio);
        lemma_one(angle);
        assert((second * square) * angle == (one - ratio) * angle);
        lemma_same_multiples(second * square, one - ratio, angle);
        assert(square != 0int as real) by {
            if square == 0int as real {
                lemma_cancels(angle, angle);
            }
        }
        // θ·sin = ratio·θ²
        let e = coefficient * square;
        let m = one - cos;
        lemma_commutes(ratio, angle);
        lemma_associates(ratio, angle, angle);
        lemma_commutes(angle, sin);
        assert(angle * sin == ratio * square);
        assert(m * e == m - half * (ratio * square));
        // ratio·ratio·θ² = (1 − cos)·(1 + cos)
        assert(ratio * (ratio * square) == m * (two - m)) by {
            lemma_associates(ratio, angle, sin);
            assert(ratio * (angle * sin) == sin * sin);
            lemma_distributes(m, one, cos);
            lemma_distributes(cos, one, cos);
            lemma_one(cos);
            lemma_one(m);
            lemma_commutes(m, cos);
        }
        lemma_series_of_series(omega, square, first, second, -half, k, t);
        // The factor of ω × t.
        lemma_exchanges(first, k, square);
        assert(first * (k * square) == k * m);
        lemma_distributes(m, coefficient, off);
        lemma_commutes(k, m);
        lemma_exchanges(second, -half, square);
        lemma_distributes(-half, one, ratio);
        let z = first - m * coefficient - half * ratio;
        assert(z == 0int as real) by {
            lemma_distributes(square, first - m * coefficient, half * ratio);
            lemma_distributes(square, first, m * coefficient);
            lemma_commutes(square, first);
            lemma_exchanges(square, m, coefficient);
            lemma_commutes(square, coefficient);
            lemma_exchanges(square, half, ratio);
            lemma_commutes(square, ratio);
            assert(square * z == 0int as real);
            lemma_cancels(square, z);
        }
        // The factor of ω × (ω × t).
        lemma_exchanges(second, k, square);
        lemma_distributes(k, one, ratio);
        lemma_commutes(k, ratio);
        lemma_distributes(ratio, coefficient, off);
        lemma_one(k);
        lemma_minus(first, half);
        lemma_commutes(first, half);
        let y = ratio * coefficient - half * first + second;
        assert(y == 0int as real) by {
            lemma_distributes(square, ratio * coefficient - half * first, second);
            lemma_distributes(square, ratio * coefficient, half * first);
            lemma_exchanges(square, ratio, coefficient);
            lemma_commutes(square, coefficient);
            lemma_exchanges(square, half, first);
            lemma_commutes(square, first);
            lemma_commutes(square, second);
            let w = ratio * e - half * m + (one - ratio);
            assert(square * y == w);
            lemma_distributes(m, ratio * e - half * m, one - ratio);
            lemma_distributes(m, ratio * e, half * m);
            lemma_distributes(m, one, ratio);
            lemma_one(m);
            lemma_exchanges(m, ratio, e);
            lemma_exchanges(m, half, m);
            lemma_distributes(ratio, m, half * (ratio * square));
            lemma_exchanges(ratio, half, ratio * square);
            lemma_distributes(m, two, m);
            lemma_commutes(m, ratio);
            lemma_commutes(m, two);
            assert(m * w == 0int as real);
            lemma_cancels(m, w);
            lemma_cancels(square, y);
        }
    }
}

/// Without a turn, the series leave a vector as it is.
proof fn lemma_no_turn(
    omega: (real, real, real),
    p: real,
    q: real,
    r: real,
    k: real,
    t: (real, real, real),
)
    requires
        dot(omega, omega) == 0int as real,
    ensures
        cross(omega, t) == (0int as real, 0int as real, 0int as real),
        cross(omega, cross(omega, t)) == (0int as real, 0int as real, 0int as real),
        series(omega, p, q, series(omega, r, k, t)) == t,
        combined(t, p, cross(omega, t), q, cross(omega, cross(omega, t))) == t,
{
    let zero = 0int as real;
    lemma_square(omega.0);
    lemma_square(omega.1);
    lemma_square(omega.2);
    if omega.0 != zero {
        lemma_cancels(omega.0, omega.0);
    }
    if omega.1 != zero {
        lemma_cancels(omega.1, omega.1);
    }
    if omega.2 != zero {
        lemma_cancels(omega.2, omega.2);
    }
    lemma_zero(t.0);
    lemma_zero(t.1);
    lemma_zero(t.2);
    lemma_commutes(t.0, zero);
    lemma_commutes(t.1, zero);
    lemma_commutes(t.2, zero);
    lemma_zero(zero);
    lemma_zero(p);
    lemma_zero(q);
    lemma_zero(r);
    lemma_zero(k);
}

/// An inner product is off by little.
proof fn lemma_inner_error(a: Vector3, b: Vector3, bound: real)
    requires
        a.inner(b).finite(),
        size(value(a.x) * value(b.x)) <= bound,
        size(value(a.y) * value(b.y)) <= bound,
        size(value(a.z) * value(b.z)) <= bound,
    ensures
        size(value(a.inner(b)) - dot(values(a), values(b))) <= (24int as real) * (half_ulp()
            * bound) + (4int as real) * least(),
        a.x.finite() && a.y.finite() && a.z.finite(),
        b.x.finite() && b.y.finite() && b.z.finite(),
        a.x.product(b.x).finite() && a.y.product(b.y).finite() && a.z.product(b.z).finite(),
{
    lemma_half_ulp();
    lemma_least();
    let (h, l) = (half_ulp(), least());
    let (u, v, w) = (a.x.product(b.x), a.y.product(b.y), a.z.product(b.z));
    let part = u.sum(v);
    lemma_parts_of_sum(part, w);
    lemma_parts_of_sum(u, v);
    lemma_parts_of_product(a.x, b.x);
    lemma_parts_of_product(a.y, b.y);
    lemma_parts_of_product(a.z, b.z);
    lemma_product_error(a.x, b.x);
    lemma_product_error(a.y, b.y);
    lemma_product_error(a.z, b.z);
    lemma_sum_error(u, v);
    lemma_sum_error(part, w);
    let (p, q, r) = (
        value(a.x) * value(b.x),
        value(a.y) * value(b.y),
        value(a.z) * value(b.z),
    );
    lemma_scaled_order(h, size(p), bound);
    lemma_scaled_order(h, size(q), bound);
    lemma_scaled_order(h, size(r), bound);
    lemma_tenth(h, bound);
    lemma_tenth(h, l);
    let k = h * bound;
    let (first, second) = (size(value(u) + value(v)), size(value(part) + value(w)));
    let five = 5int as real;
    assert(first <= five * bound + five * l);
    lemma_scaled_order(h, first, five * bound + five * l);
    lemma_distributes(h, five * bound, five * l);
    lemma_exchanges(h, five, bound);
    lemma_exchanges(h, five, l);
    assert(h * first <= five * k + five * (h * l));
    assert(second <= five * bound + five * l);
    lemma_scaled_order(h, second, five * bound + five * l);
}

/// An entry of the inverse left Jacobian: `delta` of the identity, less half of `g`,
/// plus the coefficient times a row and a column of ω̂.
proof fn lemma_entry_error(delta: Double, g: Double, row: Vector3, col: Vector3, k: Double)
    requires
        delta.difference(g.product(Double { bits: HALF })).sum(
            row.stretched(k).inner(col),
        ).finite(),
        size(value(delta)) <= 1int as real,
        size(value(g)) <= 4int as real,
        bounded(values(row), 4int as real),
        bounded(values(col), 4int as real),
        size(value(k)) <= 1int as real,
    ensures
        ({
            let entry = delta.difference(g.product(Double { bits: HALF })).sum(
                row.stretched(k).inner(col),
            );
            let exact = value(delta) - value(g) * value(Double { bits: HALF }) + value(k) * dot(
                values(row),
                values(col),
            );
            &&& size(value(entry) - exact) <= (700int as real) * half_ulp()
            &&& size(value(entry)) <= 60int as real
        }),
{
    lemma_half_ulp();
    lemma_least();
    lemma_least_is_small();
    lemma_value_of_half();
    let (h, l) = (half_ulp(), least());
    let half = Double { bits: HALF };
    let (one, four, five) = (1int as real, 4int as real, 5int as real);
    let halved = g.product(half);
    let left = delta.difference(halved);
    let scaled = row.stretched(k);
    let right = scaled.inner(col);
    lemma_parts_of_sum(left, right);
    lemma_parts_of_sum(delta, halved.negated());
    assert(halved.finite());
    // The half.
    lemma_product_error(g, half);
    let exact_half = value(g) * value(half);
    lemma_bounded_product(value(g), value(half), four, one);
    lemma_scaled_order(h, size(exact_half), four);
    lemma_commutes(h, four);
    lemma_value_of_negated(halved);
    lemma_sum_error(delta, halved.negated());
    let m = size(value(delta) + value(halved.negated()));
    assert(m <= 6int as real);
    lemma_scaled_order(h, m, 6int as real);
    lemma_commutes(h, 6int as real);
    assert(size(value(left) - (value(delta) - exact_half)) <= (11int as real) * h);
    // The product.
    lemma_bounded_parts(row, k, col);
    let (s, c, r) = (values(scaled), values(col), values(row));
    lemma_inner_error(scaled, col, 20int as real);
    lemma_commutes(h, 20int as real);
    assert(size(value(right) - dot(s, c)) <= (484int as real) * h);
    assert(dot(s, c) - value(k) * dot(r, c) == (s.0 - r.0 * value(k)) * c.0 + (s.1 - r.1 * value(
        k,
    )) * c.1 + (s.2 - r.2 * value(k)) * c.2) by {
        lemma_distributes(c.0, s.0, r.0 * value(k));
        lemma_distributes(c.1, s.1, r.1 * value(k));
        lemma_distributes(c.2, s.2, r.2 * value(k));
        lemma_three(value(k), r.0 * c.0, r.1 * c.1, r.2 * c.2);
        lemma_moved(r.0, value(k), c.0);
        lemma_moved(r.1, value(k), c.1);
        lemma_moved(r.2, value(k), c.2);
    }
    let e = five * h;
    lemma_bounded_product(s.0 - r.0 * value(k), c.0, e, four);
    lemma_bounded_product(s.1 - r.1 * value(k), c.1, e, four);
    lemma_bounded_product(s.2 - r.2 * value(k), c.2, e, four);
    assert(size(value(right) - value(k) * dot(r, c)) <= (544int as real) * h);
    // Together.
    lemma_sum_error(left, right);
    lemma_bounded_product(r.0, c.0, four, four);
    lemma_bounded_product(r.1, c.1, four, four);
    lemma_bounded_product(r.2, c.2, four, four);
    assert(size(dot(r, c)) <= 48int as real);
    lemma_bounded_product(value(k), dot(r, c), one, 48int as real);
    let n = size(value(left) + value(right));
    assert(n <= 60int as real);
    lemma_scaled_order(h, n, 60int as real);
    lemma_commutes(h, 60int as real);
}

proof fn lemma_moved(r: real, k: real, c: real)
    ensures
        (r * k) * c == k * (r * c),
{
    lemma_associates(r, k, c);
    lemma_exchanges(r, k, c);
}

/// The scaled row of an entry, and its products with the column.
proof fn lemma_bounded_parts(row: Vector3, k: Double, col: Vector3)
    requires
        row.stretched(k).inner(col).finite(),
        bounded(values(row), 4int as real),
        bounded(values(col), 4int as real),
        size(value(k)) <= 1int as real,
    ensures
        ({
            let s = values(row.stretched(k));
            let (r, c) = (values(row), values(col));
            &&& size(s.0 - r.0 * value(k)) <= (5int as real) * half_ulp()
            &&& size(s.1 - r.1 * value(k)) <= (5int as real) * half_ulp()
            &&& size(s.2 - r.2 * value(k)) <= (5int as real) * half_ulp()
            &&& size(s.0 * c.0) <= 20int as real
            &&& size(s.1 * c.1) <= 20int as real
            &&& size(s.2 * c.2) <= 20int as real
        }),
{
    let scaled = row.stretched(k);
    lemma_parts_of_sum(scaled.x.product(col.x).sum(scaled.y.product(col.y)), scaled.z.product(col.z));
    lemma_parts_of_sum(scaled.x.product(col.x), scaled.y.product(col.y));
    lemma_parts_of_product(scaled.x, col.x);
    lemma_parts_of_product(scaled.y, col.y);
    lemma_parts_of_product(scaled.z, col.z);
    lemma_scaled_part(row.x, k, value(col.x));
    lemma_scaled_part(row.y, k, value(col.y));
    lemma_scaled_part(row.z, k, value(col.z));
}

proof fn lemma_scaled_part(entry: Double, k: Double, c: real)
    requires
        entry.product(k).finite(),
        size(value(entry)) <= 4int as real,
        size(value(k)) <= 1int as real,
        size(c) <= 4int as real,
    ensures
        size(value(entry.product(k)) - value(entry) * value(k)) <= (5int as real) * half_ulp(),
        size(value(entry.product(k)) * c) <= 20int as real,
{
    lemma_half_ulp();
    lemma_least();
    lemma_least_is_small();
    let h = half_ulp();
    let (four, one) = (4int as real, 1int as real);
    lemma_product_error(entry, k);
    lemma_bounded_product(value(entry), value(k), four, one);
    lemma_scaled_order(h, size(value(entry) * value(k)), four);
    lemma_commutes(h, four);
    lemma_bounded_product(value(entry.product(k)), c, 5int as real, four);
}

/// A row of entries that are off by little, applied to a vector.
proof fn lemma_row_error(
    row: Vector3,
    exact: (real, real, real),
    t: Vector3,
    bound: real,
)
    requires
        row.inner(t).finite(),
        bound >= 0int as real,
        bounded(values(row), 60int as real),
        bounded(values(t), bound),
        size(value(row.x) - exact.0) <= (700int as real) * half_ulp(),
        size(value(row.y) - exact.1) <= (700int as real) * half_ulp(),
        size(value(row.z) - exact.2) <= (700int as real) * half_ulp(),
    ensures
        size(value(row.inner(t)) - dot(exact, values(t))) <= rounding(bound),
{
    lemma_half_ulp();
    lemma_least();
    let h = half_ulp();
    let (r, v) = (values(row), values(t));
    let sixty = 60int as real;
    lemma_bounded_product(r.0, v.0, sixty, bound);
    lemma_bounded_product(r.1, v.1, sixty, bound);
    lemma_bounded_product(r.2, v.2, sixty, bound);
    lemma_inner_error(row, t, sixty * bound);
    lemma_exchanges(h, sixty, bound);
    let e = (700int as real) * h;
    lemma_bounded_product(r.0 - exact.0, v.0, e, bound);
    lemma_bounded_product(r.1 - exact.1, v.1, e, bound);
    lemma_bounded_product(r.2 - exact.2, v.2, e, bound);
    lemma_associates(700int as real, h, bound);
    lemma_distributes(v.0, r.0, exact.0);
    lemma_distributes(v.1, r.1, exact.1);
    lemma_distributes(v.2, r.2, exact.2);
    lemma_scaled_order(h, 0int as real, bound);
    lemma_zero(h);
}

/// What rounding adds at most to the linear part of a logarithm, for a translation
/// within a bound.
pub open spec fn rounding(bound: real) -> real {
    (4096int as real) * (half_ulp() * bound) + (4int as real) * least()
}

/// One row of the inverse left Jacobian, exactly: the entries of the identity, less
/// half of ω̂, plus the coefficient times ω̂².
proof fn lemma_exact_row(
    a: real,
    b: real,
    c: real,
    half: real,
    k: real,
    x: real,
    y: real,
    z: real,
)
    ensures
        ((1int as real) + k * (-(c * c) - b * b)) * x + (c * half + k * (b * a)) * y + (k * (c * a)
            - b * half) * z == x + (-half) * (b * z - c * y) + k * (b * (a * y - b * x) - c * (c * x
            - a * z)),
{
    let one = 1int as real;
    let q = -(c * c) - b * b;
    lemma_distributes(x, one, k * q);
    lemma_one(x);
    lemma_associates(k, q, x);
    lemma_distributes(x, -(c * c), b * b);
    lemma_minus(c * c, x);
    lemma_associates(c, c, x);
    lemma_associates(b, b, x);
    lemma_distributes(y, c * half, k * (b * a));
    lemma_moved(c, half, y);
    lemma_associates(k, b * a, y);
    lemma_associates(b, a, y);
    lemma_distributes(z, k * (c * a), b * half);
    lemma_moved(b, half, z);
    lemma_associates(k, c * a, z);
    lemma_associates(c, a, z);
    lemma_distributes(-half, b * z, c * y);
    lemma_minus(half, b * z);
    lemma_minus(half, c * y);
    lemma_distributes(b, a * y, b * x);
    lemma_distributes(c, c * x, a * z);
    let (m, n) = (b * (a * y) - b * (b * x), c * (c * x) - c * (a * z));
    lemma_distributes(k, m, n);
    lemma_distributes(k, b * (a * y), b * (b * x));
    lemma_distributes(k, c * (c * x), c * (a * z));
    lemma_distributes(k, -(c * (c * x)), b * (b * x));
    lemma_minus(k, c * (c * x));
}

/// The values of the entries of ω̂.
proof fn lemma_hat_values(omega: Vector3)
    requires
        omega.x.finite() && omega.y.finite() && omega.z.finite(),
    ensures
        ({
            let (a, b, c) = values(omega);
            let zero = 0int as real;
            &&& values(hat(omega).x) == (zero, -c, b)
            &&& values(hat(omega).y) == (c, zero, -a)
            &&& values(hat(omega).z) == (-b, a, zero)
            &&& values(hat(omega).columns().x) == (zero, c, -b)
            &&& values(hat(omega).columns().y) == (-c, zero, a)
            &&& values(hat(omega).columns().z) == (b, -a, zero)
        }),
{
    lemma_value_of_zero(Double { bits: 0 });
    lemma_value_of_negated(omega.x);
    lemma_value_of_negated(omega.y);
    lemma_value_of_negated(omega.z);
}

/// The value of one.
/// The linear part of a logarithm is the translation mapped through the exact inverse
/// left Jacobian, up to rounding. The rotation vector is at most a half turn long,
/// and the coefficient of the size that belongs to it.
pub proof fn lemma_linear_part_is_exact_to_rounding(
    translation: Vector3,
    omega: Vector3,
    coefficient: Double,
    bound: real,
)
    requires
        ({
            let linear = inverse_left_jacobian(omega, coefficient).image(translation);
            linear.x.finite() && linear.y.finite() && linear.z.finite()
        }),
        omega.x.finite() && omega.y.finite() && omega.z.finite(),
        bounded(values(omega), 4int as real),
        size(value(coefficient)) <= 1int as real,
        bound >= 0int as real,
        bounded(values(translation), bound),
    ensures
        ({
            let linear = values(inverse_left_jacobian(omega, coefficient).image(translation));
            let half = (1int as real) / (2int as real);
            let exact = series(values(omega), -half, value(coefficient), values(translation));
            &&& size(linear.0 - exact.0) <= rounding(bound)
            &&& size(linear.1 - exact.1) <= rounding(bound)
            &&& size(linear.2 - exact.2) <= rounding(bound)
        }),
{
    lemma_value_of_half();
    lemma_value_of_one();
    lemma_value_of_zero(Double { bits: 0 });
    lemma_hat_values(omega);
    let matrix = inverse_left_jacobian(omega, coefficient);
    let t = values(translation);
    let (a, b, c) = values(omega);
    let k = value(coefficient);
    let half = value(Double { bits: HALF });
    assert(half == (1int as real) / (2int as real));
    let h = hat(omega);
    let columns = h.columns();
    let (one, zero) = (Double { bits: ONE }, Double { bits: 0 });
    lemma_row_parts(matrix.x, translation);
    lemma_row_parts(matrix.y, translation);
    lemma_row_parts(matrix.z, translation);
    lemma_entry_error(one, h.x.x, h.x, columns.x, coefficient);
    lemma_entry_error(zero, h.x.y, h.x, columns.y, coefficient);
    lemma_entry_error(zero, h.x.z, h.x, columns.z, coefficient);
    lemma_entry_error(zero, h.y.x, h.y, columns.x, coefficient);
    lemma_entry_error(one, h.y.y, h.y, columns.y, coefficient);
    lemma_entry_error(zero, h.y.z, h.y, columns.z, coefficient);
    lemma_entry_error(zero, h.z.x, h.z, columns.x, coefficient);
    lemma_entry_error(zero, h.z.y, h.z, columns.y, coefficient);
    lemma_entry_error(one, h.z.z, h.z, columns.z, coefficient);
    lemma_exact_entries(a, b, c, half, k);
    lemma_exact_entries(b, c, a, half, k);
    lemma_exact_entries(c, a, b, half, k);
    lemma_exact_row(a, b, c, half, k, t.0, t.1, t.2);
    lemma_exact_row(b, c, a, half, k, t.1, t.2, t.0);
    lemma_exact_row(c, a, b, half, k, t.2, t.0, t.1);
    let first = (
        (1int as real) + k * (-(c * c) - b * b),
        c * half + k * (b * a),
        k * (c * a) - b * half,
    );
    let second = (
        k * (a * b) - c * half,
        (1int as real) + k * (-(a * a) - c * c),
        a * half + k * (c * b),
    );
    let third = (
        b * half + k * (a * c),
        k * (b * c) - a * half,
        (1int as real) + k * (-(b * b) - a * a),
    );
    lemma_row_error(matrix.x, first, translation, bound);
    lemma_row_error(matrix.y, second, translation, bound);
    lemma_row_error(matrix.z, third, translation, bound);
}

/// The entries of a row that is applied are finite.
proof fn lemma_row_parts(row: Vector3, t: Vector3)
    requires
        row.inner(t).finite(),
    ensures
        row.x.finite() && row.y.finite() && row.z.finite(),
{
    lemma_parts_of_sum(row.x.product(t.x).sum(row.y.product(t.y)), row.z.product(t.z));
    lemma_parts_of_sum(row.x.product(t.x), row.y.product(t.y));
    lemma_parts_of_product(row.x, t.x);
    lemma_parts_of_product(row.y, t.y);
    lemma_parts_of_product(row.z, t.z);
}

/// The products of the rows and columns of ω̂ in one row of its square, and the halves
/// that are taken off.
proof fn lemma_exact_entries(a: real, b: real, c: real, half: real, k: real)
    ensures
        ({
            let zero = 0int as real;
            // The row (0, −c, b), whichever component comes first.
            &&& zero * half == zero
            &&& (-c) * half == -(c * half)
            &&& zero * zero == zero
            &&& zero * (-c) == zero && (-c) * zero == zero
            &&& zero * b == zero && b * zero == zero
            &&& zero * c == zero && c * zero == zero
            &&& zero * (-b) == zero && (-b) * zero == zero
            &&& (-c) * c == -(c * c)
            &&& b * (-b) == -(b * b)
            &&& (-c) * (-a) == c * a
            &&& (-a) * (-c) == c * a
            &&& a * b == b * a
            &&& a * c == c * a
        }),
{
    lemma_zero(half);
    lemma_commutes(half, 0int as real);
    lemma_zero(c);
    lemma_zero(b);
    lemma_zero(0int as real);
    lemma_commutes(c, 0int as real);
    lemma_commutes(b, 0int as real);
    lemma_minus(c, half);
    lemma_minus(c, 0int as real);
    lemma_minus(b, 0int as real);
    lemma_minus(0int as real, c);
    lemma_minus(0int as real, b);
    lemma_minus(c, c);
    lemma_minus(b, b);
    lemma_minus(c, -a);
    lemma_minus(c, a);
    lemma_minus(a, -c);
    lemma_minus(a, c);
    lemma_commutes(a, b);
    lemma_commutes(a, c);
}

/// The exponential undoes the logarithm: the left Jacobian takes the linear part back
/// to the translation, but for rounding and for what the coefficient is off by. The
/// angle, its sine and its cosine are the exact ones of the rotation vector, and the
/// factors of the left Jacobian are at most one in size, as they are for any angle.
pub proof fn lemma_exponential_undoes_the_logarithm(
    translation: Vector3,
    omega: Vector3,
    coefficient: Double,
    angle: real,
    sin: real,
    cos: real,
    first: real,
    second: real,
    exact: real,
    ratio: real,
    bound: real,
)
    requires
        ({
            let linear = inverse_left_jacobian(omega, coefficient).image(translation);
            linear.x.finite() && linear.y.finite() && linear.z.finite()
        }),
        omega.x.finite() && omega.y.finite() && omega.z.finite(),
        bounded(values(omega), 4int as real),
        size(value(coefficient)) <= 1int as real,
        bound >= 0int as real,
        bounded(values(translation), bound),
        describes_rotation(values(omega), angle, sin, cos, first, second, exact),
        size(first) <= 1int as real,
        size(second) <= 1int as real,
        ratio * angle == sin,
    ensures
        ({
            let linear = values(inverse_left_jacobian(omega, coefficient).image(translation));
            let (w, t) = (values(omega), values(translation));
            let off = value(coefficient) - exact;
            let back = series(w, first, second, linear);
            let expected = combined(
                t,
                -(((1int as real) - cos) * off),
                cross(w, t),
                ratio * off,
                cross(w, cross(w, t)),
            );
            &&& size(back.0 - expected.0) <= (73int as real) * rounding(bound)
            &&& size(back.1 - expected.1) <= (73int as real) * rounding(bound)
            &&& size(back.2 - expected.2) <= (73int as real) * rounding(bound)
            &&& off == 0int as real ==> expected == t
        }),
{
    let linear = values(inverse_left_jacobian(omega, coefficient).image(translation));
    let (w, t) = (values(omega), values(translation));
    let off = value(coefficient) - exact;
    let half = (1int as real) / (2int as real);
    let v = series(w, -half, value(coefficient), t);
    lemma_linear_part_is_exact_to_rounding(translation, omega, coefficient, bound);
    lemma_left_jacobian_undoes_its_inverse(
        w,
        angle,
        sin,
        cos,
        first,
        second,
        exact,
        off,
        ratio,
        t,
    );
    assert(exact + off == value(coefficient));
    let d = (linear.0 - v.0, linear.1 - v.1, linear.2 - v.2);
    lemma_series_of_difference(w, first, second, v, d, rounding(bound));
    assert((v.0 + d.0, v.1 + d.1, v.2 + d.2) == linear);
    if off == 0int as real {
        lemma_zero((1int as real) - cos);
        lemma_zero(ratio);
        let (a, b) = (cross(w, t), cross(w, cross(w, t)));
        lemma_zero(a.0);
        lemma_zero(a.1);
        lemma_zero(a.2);
        lemma_zero(b.0);
        lemma_zero(b.1);
        lemma_zero(b.2);
        lemma_commutes(a.0, 0int as real);
        lemma_commutes(a.1, 0int as real);
        lemma_commutes(a.2, 0int as real);
        lemma_commutes(b.0, 0int as real);
        lemma_commutes(b.1, 0int as real);
        lemma_commutes(b.2, 0int as real);
    }
}

/// A small change of a vector changes its image by little.
proof fn lemma_series_of_difference(
    w: (real, real, real),
    p: real,
    q: real,
    v: (real, real, real),
    d: (real, real, real),
    bound: real,
)
    requires
        bounded(w, 4int as real),
        bounded(d, bound),
        size(p) <= 1int as real,
        size(q) <= 1int as real,
    ensures
        ({
            let moved = series(w, p, q, (v.0 + d.0, v.1 + d.1, v.2 + d.2));
            let still = series(w, p, q, v);
            &&& size(moved.0 - still.0) <= (73int as real) * bound
            &&& size(moved.1 - still.1) <= (73int as real) * bound
            &&& size(moved.2 - still.2) <= (73int as real) * bound
        }),
{
    let (one, zero) = (1int as real, 0int as real);
    let a = cross(w, v);
    let e = cross(w, d);
    let f = cross(w, e);
    lemma_sum_of_cross(w, v, d);
    lemma_sum_of_cross(w, a, e);
    let eight = 8int as real;
    lemma_cross_bound(w, d, bound);
    lemma_cross_bound(w, e, eight * bound);
    lemma_bounded_product(p, e.0, one, eight * bound);
    lemma_bounded_product(p, e.1, one, eight * bound);
    lemma_bounded_product(p, e.2, one, eight * bound);
    let more = eight * (eight * bound);
    lemma_bounded_product(q, f.0, one, more);
    lemma_bounded_product(q, f.1, one, more);
    lemma_bounded_product(q, f.2, one, more);
    let b = cross(w, a);
    lemma_distributes(p, a.0, e.0);
    lemma_distributes(p, a.1, e.1);
    lemma_distributes(p, a.2, e.2);
    lemma_distributes(q, b.0, f.0);
    lemma_distributes(q, b.1, f.1);
    lemma_distributes(q, b.2, f.2);
}

proof fn lemma_sum_of_cross(w: (real, real, real), v: (real, real, real), d: (real, real, real))
    ensures
        cross(w, (v.0 + d.0, v.1 + d.1, v.2 + d.2)) == (
            cross(w, v).0 + cross(w, d).0,
            cross(w, v).1 + cross(w, d).1,
            cross(w, v).2 + cross(w, d).2,
        ),
{
    lemma_distributes(w.0, v.1, d.1);
    lemma_distributes(w.0, v.2, d.2);
    lemma_distributes(w.1, v.0, d.0);
    lemma_distributes(w.1, v.2, d.2);
    lemma_distributes(w.2, v.0, d.0);
    lemma_distributes(w.2, v.1, d.1);
}

proof fn lemma_cross_bound(w: (real, real, real), d: (real, real, real), bound: real)
    requires
        bounded(w, 4int as real),
        bounded(d, bound),
    ensures
        bounded(cross(w, d), (8int as real) * bound),
{
    let four = 4int as real;
    lemma_bounded_product(w.1, d.2, four, bound);
    lemma_bounded_product(w.2, d.1, four, bound);
    lemma_bounded_product(w.2, d.0, four, bound);
    lemma_bounded_product(w.0, d.2, four, bound);
    lemma_bounded_product(w.0, d.1, four, bound);
    lemma_bounded_product(w.1, d.0, four, bound);
}

} // verus!
