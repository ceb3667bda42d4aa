//! Algebra of real numbers and of vectors of them.

use crate::error::{lemma_distributes, lemma_scaled_order, lemma_size_of_product, size, value};
use crate::vector::Vector3;
use vstd::prelude::*;

verus! {

/// The cross product.
pub open spec fn cross(a: (real, real, real), b: (real, real, real)) -> (real, real, real) {
    (a.1 * b.2 - a.2 * b.1, a.2 * b.0 - a.0 * b.2, a.0 * b.1 - a.1 * b.0)
}

/// The inner product.
pub open spec fn dot(a: (real, real, real), b: (real, real, real)) -> real {
    a.0 * b.0 + a.1 * b.1 + a.2 * b.2
}

/// The combination v + p·a + q·b.
pub open spec fn combined(
    v: (real, real, real),
    p: real,
    a: (real, real, real),
    q: real,
    b: (real, real, real),
) -> (real, real, real) {
    (v.0 + p * a.0 + q * b.0, v.1 + p * a.1 + q * b.1, v.2 + p * a.2 + q * b.2)
}

/// The values of a vector's components.
pub open spec fn values(v: Vector3) -> (real, real, real) {
    (value(v.x), value(v.y), value(v.z))
}

/// Whether no component is larger than a bound.
pub open spec fn bounded(v: (real, real, real), bound: real) -> bool {
    size(v.0) <= bound && size(v.1) <= bound && size(v.2) <= bound
}

pub(crate) proof fn lemma_commutes(a: real, b: real)
    by (nonlinear_arith)
    ensures
        a * b == b * a,
{
}

pub(crate) proof fn lemma_associates(a: real, b: real, c: real)
    by (nonlinear_arith)
    ensures
        (a * b) * c == a * (b * c),
{
}

pub(crate) proof fn lemma_exchanges(a: real, b: real, c: real)
    ensures
        a * (b * c) == b * (a * c),
{
    lemma_associates(a, b, c);
    lemma_associates(b, a, c);
    lemma_commutes(a, b);
}

pub(crate) proof fn lemma_minus(a: real, b: real)
    by (nonlinear_arith)
    ensures
        a * (-b) == -(a * b),
        (-a) * b == -(a * b),
{
}

pub(crate) proof fn lemma_one(a: real)
    by (nonlinear_arith)
    ensures
        (1int as real) * a == a,
        a * (1int as real) == a,
{
}

pub(crate) proof fn lemma_zero(a: real)
    by (nonlinear_arith)
    ensures
        a * (0int as real) == 0int as real,
{
}

pub(crate) proof fn lemma_three(f: real, a: real, b: real, c: real)
    ensures
        f * (a + b + c) == f * a + f * b + f * c,
{
    lemma_distributes(f, a + b, c);
    lemma_distributes(f, a, b);
}

pub(crate) proof fn lemma_cancels(f: real, z: real)
    by (nonlinear_arith)
    requires
        f != 0int as real,
        f * z == 0int as real,
    ensures
        z == 0int as real,
{
}

pub(crate) proof fn lemma_same_multiples(x: real, y: real, f: real)
    requires
        f != 0int as real,
        x * f == y * f,
    ensures
        x == y,
{
    lemma_distributes(f, x, y);
    lemma_commutes(f, x);
    lemma_commutes(f, y);
    lemma_cancels(f, x - y);
}

pub(crate) proof fn lemma_square(a: real)
    by (nonlinear_arith)
    ensures
        a * a >= 0int as real,
{
}

pub(crate) proof fn lemma_square_of_product(a: real, b: real)
    by (nonlinear_arith)
    ensures
        (a * b) * (a * b) == (a * a) * (b * b),
{
}

pub(crate) proof fn lemma_square_of_difference(a: real, b: real)
    by (nonlinear_arith)
    ensures
        (a - b) * (a - b) == a * a - (2int as real) * (a * b) + b * b,
        (a + b) * (a + b) == a * a + (2int as real) * (a * b) + b * b,
{
}

pub(crate) proof fn lemma_strict_order(factor: real, low: real, high: real)
    by (nonlinear_arith)
    requires
        factor > 0int as real,
        low < high,
    ensures
        factor * low < factor * high,
{
}

pub(crate) proof fn lemma_root_order(a: real, b: real)
    requires
        a * a <= b * b,
        b >= 0int as real,
    ensures
        size(a) <= b,
{
    let c = size(a);
    lemma_size_of_product(a, a);
    lemma_square(a);
    if c > b {
        lemma_strict_order(c, b, c);
        lemma_scaled_order(b, b, c);
    }
}

/// A product is not larger than the product of bounds on its factors.
pub(crate) proof fn lemma_bounded_product(a: real, b: real, bound: real, other: real)
    requires
        size(a) <= bound,
        size(b) <= other,
    ensures
        size(a * b) <= bound * other,
{
    lemma_size_of_product(a, b);
    lemma_scaled_order(size(b), size(a), bound);
    lemma_scaled_order(bound, size(b), other);
}

/// One component of ω × (ω × u) = ω·(ω·u) − u·|ω|².
proof fn lemma_double_part(
    a: real,
    b: real,
    c: real,
    x: real,
    y: real,
    z: real,
    inner: real,
    square: real,
)
    requires
        inner == a * x + b * y + c * z,
        square == a * a + b * b + c * c,
    ensures
        b * (a * y - b * x) - c * (c * x - a * z) == a * inner - x * square,
{
    lemma_distributes(b, a * y, b * x);
    lemma_distributes(c, c * x, a * z);
    lemma_three(a, a * x, b * y, c * z);
    lemma_three(x, a * a, b * b, c * c);
    lemma_exchanges(b, a, y);
    lemma_exchanges(c, a, z);
    lemma_exchanges(x, a, a);
    lemma_exchanges(x, b, b);
    lemma_exchanges(x, c, c);
    lemma_commutes(x, a);
    lemma_commutes(x, b);
    lemma_commutes(x, c);
}

/// ω × (ω × u) = ω·(ω·u) − u·|ω|².
pub(crate) proof fn lemma_double_cross(w: (real, real, real), u: (real, real, real))
    ensures
        cross(w, cross(w, u)).0 == w.0 * dot(w, u) - u.0 * dot(w, w),
        cross(w, cross(w, u)).1 == w.1 * dot(w, u) - u.1 * dot(w, w),
        cross(w, cross(w, u)).2 == w.2 * dot(w, u) - u.2 * dot(w, w),
{
    let (d, n) = (dot(w, u), dot(w, w));
    lemma_double_part(w.0, w.1, w.2, u.0, u.1, u.2, d, n);
    lemma_double_part(w.1, w.2, w.0, u.1, u.2, u.0, d, n);
    lemma_double_part(w.2, w.0, w.1, u.2, u.0, u.1, d, n);
}

/// ω is at right angles to ω × u.
pub(crate) proof fn lemma_cross_is_orthogonal(w: (real, real, real), u: (real, real, real))
    ensures
        dot(w, cross(w, u)) == 0int as real,
{
    lemma_distributes(w.0, w.1 * u.2, w.2 * u.1);
    lemma_distributes(w.1, w.2 * u.0, w.0 * u.2);
    lemma_distributes(w.2, w.0 * u.1, w.1 * u.0);
    lemma_exchanges(w.0, w.1, u.2);
    lemma_exchanges(w.0, w.2, u.1);
    lemma_exchanges(w.1, w.2, u.0);
}

} // verus!
