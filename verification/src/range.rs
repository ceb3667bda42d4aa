//! What stays in range: sums, products, quotients and roots whose exact values are
//! moderate do not overflow.

use crate::arithmetic::lemma_integer_root_exists;
use crate::double::{
    exponent, integer_root, lemma_nearest_of_units, significand, units, Double, UNIT_EXPONENT,
};
use crate::error::{
    half_ulp, lemma_half_ulp, lemma_least, lemma_least_is_small, lemma_product_error,
    lemma_scaled_order, lemma_size_of_product, lemma_sum_error, lemma_value_of_zero, size, value,
};
use crate::quotients::{
    billionth, lemma_length_error, lemma_square_error, lemma_units_are_positive,
    lemma_value_of_negative,
};
use crate::reals::{
    dot, lemma_associates, lemma_bounded_product, lemma_commutes, lemma_one, lemma_square,
    lemma_strict_order, lemma_zero, values,
};
use crate::rounding::{lemma_nearest_monotone, nearest_magnitude, INFINITE, TWO_52};
use crate::vector::Vector3;
use vstd::arithmetic::power2::{
    lemma2_to64, lemma2_to64_rest, lemma_pow2_adds, lemma_pow2_pos, lemma_pow2_strictly_increases,
    pow2,
};
use vstd::prelude::*;

verus! {

/// The bits of two to the 512th.
const LARGE: u64 = 0x5FF0_0000_0000_0000;

/// Two to the 512th.
pub open spec fn large() -> real {
    pow2(512) as real
}

/// A large number is at least 10^38.
pub proof fn lemma_large()
    ensures
        large() >= 100000000000000000000000000000000000000int as real,
{
    lemma2_to64();
    lemma2_to64_rest();
    lemma_pow2_adds(64, 64);
    lemma_pow2_strictly_increases(128, 512);
}

/// The units of a large number.
proof fn lemma_large_units()
    ensures
        units(LARGE as nat) == pow2(512) * pow2(UNIT_EXPONENT as nat),
        LARGE < INFINITE,
        nearest_magnitude(units(LARGE as nat), 1) == LARGE,
        units(LARGE as nat) > pow2(UNIT_EXPONENT as nat),
{
    lemma2_to64();
    lemma2_to64_rest();
    assert(significand(LARGE as nat) == TWO_52);
    assert(exponent(LARGE as nat) == 1534);
    lemma_pow2_adds(52, 1534);
    lemma_pow2_adds(512, 1074);
    lemma_nearest_of_units(LARGE as nat);
    lemma_pow2_strictly_increases(1074, 1586);
}

/// A ratio of moderate size does not round to infinity.
proof fn lemma_moderate_ratio(num: nat, den: nat)
    requires
        den > 0,
        num <= units(LARGE as nat) * den,
    ensures
        nearest_magnitude(num, den) < INFINITE,
{
    lemma_large_units();
    lemma_nearest_monotone(num, den, units(LARGE as nat), 1);
}

/// The units of a number, and its value.
proof fn lemma_units_and_value(x: Double)
    requires
        x.finite(),
    ensures
        units(x.magnitude()) as real == size(value(x)) * (pow2(UNIT_EXPONENT as nat) as real),
{
    lemma_pow2_pos(UNIT_EXPONENT as nat);
    let u = pow2(UNIT_EXPONENT as nat) as real;
    let (n, p) = (x.scaled() as real, units(x.magnitude()) as real);
    assert(p == size(n / u) * u) by (nonlinear_arith)
        requires
            n == p || n == -p,
            p >= 0int as real,
            u > 0int as real,
    ;
}

/// A moderate sum is finite.
pub proof fn lemma_sum_in_range(a: Double, b: Double)
    requires
        a.finite(),
        b.finite(),
        size(value(a) + value(b)) <= large(),
    ensures
        a.sum(b).finite(),
{
    reveal(Double::sum);
    lemma_pow2_pos(UNIT_EXPONENT as nat);
    lemma_large_units();
    let u = pow2(UNIT_EXPONENT as nat) as real;
    let total = a.scaled() + b.scaled();
    let num: nat = (if total < 0 {
        -total
    } else {
        total
    }) as nat;
    let (x, y) = (a.scaled() as real, b.scaled() as real);
    assert(num as real <= large() * u) by (nonlinear_arith)
        requires
            num as real == x + y || num as real == -(x + y),
            size(x / u + y / u) <= large(),
            u > 0int as real,
    ;
    let (x512, one) = (pow2(512), pow2(UNIT_EXPONENT as nat));
    assert((x512 * one) as real == large() * u) by (nonlinear_arith)
        requires
            large() == x512 as real,
            u == one as real,
    ;
    lemma_moderate_ratio(num, 1);
}

/// A moderate product is finite.
pub proof fn lemma_product_in_range(a: Double, b: Double)
    requires
        a.finite(),
        b.finite(),
        size(value(a) * value(b)) <= large(),
    ensures
        a.product(b).finite(),
{
    reveal(Double::product);
    lemma_pow2_pos(UNIT_EXPONENT as nat);
    lemma_large_units();
    lemma_units_and_value(a);
    lemma_units_and_value(b);
    lemma_size_of_product(value(a), value(b));
    let one = pow2(UNIT_EXPONENT as nat);
    let u = one as real;
    let (p, q) = (units(a.magnitude()), units(b.magnitude()));
    let (x, y) = (size(value(a)), size(value(b)));
    assert((p * q) as real == (x * y) * (u * u)) by (nonlinear_arith)
        requires
            p as real == x * u,
            q as real == y * u,
    ;
    assert((p * q) as real <= large() * (u * u)) by (nonlinear_arith)
        requires
            (p * q) as real == (x * y) * (u * u),
            x * y <= large(),
            u > 0int as real,
    ;
    let most = units(LARGE as nat);
    assert((most * one) as real == large() * (u * u)) by (nonlinear_arith)
        requires
            most == pow2(512) * one,
            u == one as real,
            large() == pow2(512) as real,
    ;
    lemma_moderate_ratio(p * q, one);
}

/// A moderate quotient is finite.
pub proof fn lemma_quotient_in_range(a: Double, b: Double)
    requires
        a.finite(),
        b.finite(),
        value(b) != 0int as real,
        size(value(a)) <= large() * size(value(b)),
    ensures
        a.quotient(b).finite(),
{
    reveal(Double::quotient);
    lemma_pow2_pos(UNIT_EXPONENT as nat);
    lemma_large_units();
    lemma_units_and_value(a);
    lemma_units_and_value(b);
    if b.zero() {
        lemma_value_of_zero(b);
    }
    lemma_units_are_positive(b);
    let one = pow2(UNIT_EXPONENT as nat);
    let u = one as real;
    let (p, q) = (units(a.magnitude()), units(b.magnitude()));
    let (x, y) = (size(value(a)), size(value(b)));
    let most = units(LARGE as nat);
    assert((p * one) as real <= (most * q) as real) by (nonlinear_arith)
        requires
            p as real == x * u,
            q as real == y * u,
            x <= large() * y,
            u == one as real,
            u > 0int as real,
            most == pow2(512) * one,
            large() == pow2(512) as real,
    ;
    lemma_moderate_ratio(p * one, q);
}

/// The root of a moderate number is finite.
pub proof fn lemma_root_in_range(a: Double)
    requires
        a.finite(),
        !a.negative(),
        size(value(a)) <= large(),
    ensures
        a.root().finite(),
{
    reveal(Double::root);
    lemma_pow2_pos(UNIT_EXPONENT as nat);
    lemma_large_units();
    lemma_units_and_value(a);
    let one = pow2(UNIT_EXPONENT as nat);
    let u = one as real;
    let p = units(a.magnitude());
    let square = p * one;
    let whole = integer_root(square);
    lemma_integer_root_exists(square);
    let most = units(LARGE as nat);
    assert(p <= most) by (nonlinear_arith)
        requires
            p as real == size(value(a)) * u,
            size(value(a)) <= large(),
            most == pow2(512) * one,
            large() == pow2(512) as real,
            u == one as real,
            u > 0int as real,
    ;
    assert(whole < most) by (nonlinear_arith)
        requires
            whole * whole <= square,
            square == p * one,
            p <= most,
            one < most,
    ;
    let inexact: nat = if whole * whole == square {
        0
    } else {
        1
    };
    lemma_moderate_ratio(2 * whole + inexact, 2);
}

/// Whether a number is finite and not larger than a bound.
pub open spec fn within(x: Double, most: real) -> bool {
    x.finite() && size(value(x)) <= most
}

/// Ten to the thirtieth.
pub open spec fn nonillion() -> real {
    1000000000000000000000000000000int as real
}

/// The product of bounded numbers is bounded.
pub proof fn lemma_product_within(a: Double, b: Double, most: real, other: real)
    requires
        within(a, most),
        within(b, other),
        most * other <= nonillion(),
    ensures
        within(a.product(b), (2int as real) * (most * other) + (1int as real)),
{
    lemma_large();
    lemma_half_ulp();
    lemma_least();
    lemma_least_is_small();
    lemma_bounded_product(value(a), value(b), most, other);
    lemma_product_in_range(a, b);
    lemma_product_error(a, b);
    let x = size(value(a) * value(b));
    lemma_scaled_order(x, half_ulp(), 1int as real);
    lemma_one(x);
}

/// The sum of bounded numbers is bounded.
pub proof fn lemma_sum_within(a: Double, b: Double, most: real, other: real)
    requires
        within(a, most),
        within(b, other),
        most + other <= nonillion(),
    ensures
        within(a.sum(b), (2int as real) * (most + other)),
{
    lemma_large();
    lemma_half_ulp();
    lemma_sum_in_range(a, b);
    lemma_sum_error(a, b);
    let x = size(value(a) + value(b));
    lemma_scaled_order(x, half_ulp(), 1int as real);
    lemma_one(x);
}

/// Whether the components of a vector are finite and not larger than a bound.
pub open spec fn vector_within(v: Vector3, most: real) -> bool {
    within(v.x, most) && within(v.y, most) && within(v.z, most)
}

/// An inner product of bounded vectors is finite.
pub proof fn lemma_inner_within(a: Vector3, b: Vector3, most: real, other: real)
    requires
        vector_within(a, most),
        vector_within(b, other),
        0int as real <= most * other,
        most * other <= 1000000000000000000000000int as real,
    ensures
        within(a.inner(b), (20int as real) * (most * other) + (10int as real)),
{
    let part = (2int as real) * (most * other) + (1int as real);
    lemma_product_within(a.x, b.x, most, other);
    lemma_product_within(a.y, b.y, most, other);
    lemma_product_within(a.z, b.z, most, other);
    let (p, q, r) = (a.x.product(b.x), a.y.product(b.y), a.z.product(b.z));
    lemma_sum_within(p, q, part, part);
    lemma_sum_within(p.sum(q), r, (2int as real) * (part + part), part);
}

/// The length of a bounded vector is finite and near the exact one, unless that is
/// below 1e-9.
pub proof fn lemma_length_within(v: Vector3, most: real, y: real)
    requires
        vector_within(v, most),
        0int as real <= most,
        most <= 1000000000000int as real,
        y >= billionth(),
        y * y == dot(values(v), values(v)),
    ensures
        v.length().finite(),
        v.inner(v).finite(),
        size(value(v.length()) - y) <= (6int as real) * (half_ulp() * y),
        !v.length().negative(),
{
    lemma_large();
    lemma_half_ulp();
    lemma_scaled_order(most, most, 1000000000000int as real);
    lemma_square(most);
    lemma_commutes(most, 1000000000000int as real);
    lemma_inner_within(v, v, most, most);
    lemma_square_error(v, y);
    let s = y * y;
    let h = half_ulp();
    lemma_square(y);
    lemma_scaled_order(s, (10000int as real) * h, 1int as real);
    lemma_associates(10000int as real, h, s);
    lemma_one(s);
    let a = v.inner(v);
    lemma_scaled_order(y, billionth(), y);
    lemma_scaled_order(billionth(), billionth(), y);
    lemma_strict_order(billionth(), 0int as real, billionth());
    lemma_zero(billionth());
    lemma_commutes(y, billionth());
    if a.negative() {
        lemma_value_of_negative(a);
    }
    lemma_root_in_range(a);
    lemma_length_error(v, y);
    reveal(Double::root);
}

} // verus!
