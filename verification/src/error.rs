//! The values of numbers as real numbers, and how far an operation may be off: half a
//! unit in the last place.

use crate::double::{exponent, significand, units, Double, UNIT_EXPONENT};
use crate::rounding::{
    lemma_nearest_magnitude, lemma_scale_bounds, magnitude_of, nearest_magnitude, round_half_even,
    scale_of, INFINITE, TWO_52, TWO_53,
};
use vstd::arithmetic::div_mod::{lemma_fundamental_div_mod, lemma_fundamental_div_mod_converse};
use vstd::arithmetic::power2::{
    lemma2_to64, lemma2_to64_rest, lemma_pow2_pos, lemma_pow2_strictly_increases, lemma_pow2_unfold,
    pow2,
};
use vstd::prelude::*;

verus! {

/// The value of a significand at a scale.
proof fn lemma_units_of_parts(scale: nat, rounded: nat)
    requires
        rounded <= TWO_53,
        scale == 0 || rounded >= TWO_52,
        magnitude_of(scale, rounded) < INFINITE,
    ensures
        units(magnitude_of(scale, rounded)) == rounded * pow2(scale),
{
    lemma2_to64();
    let magnitude = magnitude_of(scale, rounded);
    let half = TWO_52 as int;
    if rounded < TWO_52 {
    } else if rounded < TWO_53 {
        lemma_fundamental_div_mod_converse(
            magnitude as int,
            half,
            (scale + 1) as int,
            rounded - half,
        );
    } else {
        lemma_fundamental_div_mod_converse(magnitude as int, half, (scale + 2) as int, 0);
        lemma_pow2_unfold(scale + 1);
        assert(TWO_52 * pow2(scale + 1) == rounded * pow2(scale)) by (nonlinear_arith)
            requires
                pow2(scale + 1) == 2 * pow2(scale),
                rounded == 2 * TWO_52,
        ;
    }
}

/// A rounded quotient is off by at most a part in 2^53, or by half a unit.
pub proof fn lemma_nearest_error(num: nat, den: nat)
    requires
        den > 0,
        nearest_magnitude(num, den) < INFINITE,
    ensures
        ({
            let off = units(nearest_magnitude(num, den)) * den - num;
            ||| -num <= TWO_53 * off <= num
            ||| -den <= 2 * off <= den
        }),
{
    lemma2_to64();
    let scale = scale_of(num, den);
    let place = den * pow2(scale);
    lemma_scale_bounds(num, den);
    lemma_pow2_pos(scale);
    assert(place > 0) by (nonlinear_arith)
        requires
            place == den * pow2(scale),
            den > 0,
            pow2(scale) > 0,
    ;
    lemma_fundamental_div_mod(num as int, place as int);
    let (quotient, remainder) = (num / place, num % place);
    let rounded = round_half_even(num, place);
    assert(quotient < TWO_53) by (nonlinear_arith)
        requires
            num == place * quotient + remainder,
            num < TWO_53 * place,
            remainder >= 0,
            place > 0,
    ;
    assert(scale == 0 || quotient >= TWO_52) by (nonlinear_arith)
        requires
            num == place * quotient + remainder,
            scale == 0 || num >= TWO_52 * place,
            remainder < place,
            place > 0,
    ;
    lemma_units_of_parts(scale, rounded);
    let off = units(nearest_magnitude(num, den)) * den - num;
    assert(off == rounded * place - num) by (nonlinear_arith)
        requires
            off == (rounded * pow2(scale)) * den - num,
            place == den * pow2(scale),
    ;
    assert(-place <= 2 * off <= place) by (nonlinear_arith)
        requires
            off == rounded * place - num,
            num == place * quotient + remainder,
            0 <= remainder < place,
            rounded == quotient + 1 && 2 * remainder >= place || rounded == quotient && 2
                * remainder <= place,
    ;
    if scale == 0 {
        assert(place == den) by (nonlinear_arith)
            requires
                place == den * pow2(scale),
                pow2(scale) == 1,
        ;
    }
}

/// The value of a finite number.
pub open spec fn value(x: Double) -> real {
    (x.scaled() as real) / (pow2(UNIT_EXPONENT as nat) as real)
}

/// The least positive number, 2^-1074.
pub open spec fn least() -> real {
    (1int as real) / (pow2(UNIT_EXPONENT as nat) as real)
}

/// Half a unit in the last place of one, 2^-53.
pub open spec fn half_ulp() -> real {
    (1int as real) / (TWO_53 as int as real)
}

/// The size of a real number.
pub open spec fn size(x: real) -> real {
    if x < 0int as real {
        -x
    } else {
        x
    }
}

/// The number of least units in one, as a real number.
pub open spec fn units_in_one() -> real {
    pow2(UNIT_EXPONENT as nat) as real
}

proof fn lemma_units_in_one()
    ensures
        units_in_one() > 0int as real,
{
    lemma_pow2_pos(UNIT_EXPONENT as nat);
}

/// A sum is off by at most half a unit in the last place.
pub proof fn lemma_sum_error(a: Double, b: Double)
    requires
        a.sum(b).finite(),
    ensures
        size(value(a.sum(b)) - (value(a) + value(b))) <= half_ulp() * size(value(a) + value(b)),
{
    reveal(Double::sum);
    lemma_units_in_one();
    let total = a.scaled() + b.scaled();
    let result = a.sum(b).scaled();
    let num = if total < 0 {
        -total
    } else {
        total
    };
    if total == 0 {
        assert(result == 0) by {
            assert(units(0) == 0) by (nonlinear_arith)
                requires
                    units(0) == 0 * pow2(exponent(0)),
            ;
        }
    } else {
        lemma_nearest_error(num as nat, 1);
        assert(units(nearest_magnitude(num as nat, 1)) * 1 == units(
            nearest_magnitude(num as nat, 1),
        ));
    }
    assert(-num <= TWO_53 * (result - total) <= num);
    lemma_relative(result, total, units_in_one());
    let (x, y, u) = (a.scaled() as real, b.scaled() as real, units_in_one());
    assert(x / u + y / u == (x + y) / u) by (nonlinear_arith)
        requires
            u > 0int as real,
    ;
}

/// A bound on integers as a bound on their values.
pub(crate) proof fn lemma_relative(result: int, exact: int, u: real)
    requires
        u > 0int as real,
        exact < 0 ==> exact <= TWO_53 * (result - exact) <= -exact,
        exact >= 0 ==> -exact <= TWO_53 * (result - exact) <= exact,
    ensures
        size((result as real) / u - (exact as real) / u) <= half_ulp() * size(
            (exact as real) / u,
        ),
{
    let (r, t) = (result as real, exact as real);
    let n = TWO_53 as int as real;
    let (p, q) = (r / u, t / u);
    assert(p * u == r && q * u == t) by (nonlinear_arith)
        requires
            p == r / u,
            q == t / u,
            u > 0int as real,
    ;
    assert(n * (r - t) == (TWO_53 * (result - exact)) as real) by (nonlinear_arith)
        requires
            n == TWO_53 as int as real,
            r == result as real,
            t == exact as real,
    ;
    assert(size(p - q) * n <= size(q)) by (nonlinear_arith)
        requires
            p * u == r,
            q * u == t,
            u > 0int as real,
            n > 0int as real,
            t < 0int as real ==> t <= n * (r - t) <= -t,
            t >= 0int as real ==> -t <= n * (r - t) <= t,
    ;
    lemma_half_ulp();
    assert(size(p - q) <= half_ulp() * size(q)) by (nonlinear_arith)
        requires
            size(p - q) * n <= size(q),
            half_ulp() * n == 1int as real,
            n > 0int as real,
    ;
}

pub proof fn lemma_half_ulp()
    ensures
        half_ulp() * (TWO_53 as int as real) == 1int as real,
        half_ulp() > 0int as real,
        (10int as real) * half_ulp() <= 1int as real,
        (10000int as real) * half_ulp() <= 1int as real,
{
    let n = TWO_53 as int as real;
    let h = half_ulp();
    assert((10000int as real) * h <= 1int as real && h > 0int as real) by (nonlinear_arith)
        requires
            h == (1int as real) / n,
            n >= 10000int as real,
    ;
    assert(h * n == 1int as real && h > 0int as real) by (nonlinear_arith)
        requires
            h == (1int as real) / n,
            n > 0int as real,
    ;
}

/// A product is off by at most half a unit in the last place, or by half the least
/// number.
pub proof fn lemma_product_error(a: Double, b: Double)
    requires
        a.product(b).finite(),
    ensures
        size(value(a.product(b)) - value(a) * value(b)) <= half_ulp() * size(
            value(a) * value(b),
        ) + least(),
{
    reveal(Double::product);
    lemma_units_in_one();
    lemma_half_ulp();
    lemma_pow2_pos(UNIT_EXPONENT as nat);
    let one = pow2(UNIT_EXPONENT as nat);
    let (p, q) = (units(a.magnitude()), units(b.magnitude()));
    let num = p * q;
    lemma_nearest_error(num, one);
    let result = a.product(b).scaled();
    let exact = a.scaled() * b.scaled();
    let negative = a.negative() != b.negative();
    let off = units(nearest_magnitude(num, one)) * one - num;
    assert(exact == if negative {
        -(num as int)
    } else {
        num as int
    }) by (nonlinear_arith)
        requires
            num == p * q,
            exact == a.scaled() * b.scaled(),
            a.scaled() == (if a.negative() {
                -(p as int)
            } else {
                p as int
            }),
            b.scaled() == (if b.negative() {
                -(q as int)
            } else {
                q as int
            }),
            negative == (a.negative() != b.negative()),
    ;
    let m = nearest_magnitude(num, one);
    assert(result == if negative {
        -(units(m) as int)
    } else {
        units(m) as int
    });
    assert(result * one - exact == if negative {
        -off
    } else {
        off
    }) by (nonlinear_arith)
        requires
            off == units(m) * one - num,
            result == (if negative {
                -(units(m) as int)
            } else {
                units(m) as int
            }),
            exact == (if negative {
                -(num as int)
            } else {
                num as int
            }),
    ;
    lemma_scaled_product(result, a.scaled(), b.scaled(), one as int);
}

/// A bound on integers as a bound on the value of a product.
proof fn lemma_scaled_product(result: int, a: int, b: int, one: int)
    requires
        one > 0,
        ({
            let off = result * one - a * b;
            let num = if a * b < 0 {
                -(a * b)
            } else {
                a * b
            };
            ||| -num <= TWO_53 * off <= num
            ||| -one <= 2 * off <= one
        }),
    ensures
        ({
            let u = one as real;
            let exact = ((a as real) / u) * ((b as real) / u);
            size((result as real) / u - exact) <= half_ulp() * size(exact) + (1int as real) / u
        }),
{
    lemma_half_ulp();
    let u = one as real;
    let (x, y, r) = ((a as real) / u, (b as real) / u, (result as real) / u);
    let exact = x * y;
    let n = TWO_53 as int as real;
    let h = half_ulp();
    let off = result * one - a * b;
    let d = (off as real) / (u * u);
    let e = (a * b) as real / (u * u);
    assert(r - exact == d && e == exact) by (nonlinear_arith)
        requires
            u == one as real,
            u > 0int as real,
            x == (a as real) / u,
            y == (b as real) / u,
            r == (result as real) / u,
            exact == x * y,
            off == result * one - a * b,
            d == (off as real) / (u * u),
            e == (a * b) as real / (u * u),
    ;
    let num = if a * b < 0 {
        -(a * b)
    } else {
        a * b
    };
    assert(size(exact) == (num as real) / (u * u)) by (nonlinear_arith)
        requires
            exact == (a * b) as real / (u * u),
            u > 0int as real,
            num == (if a * b < 0 {
                -(a * b)
            } else {
                a * b
            }),
    ;
    if -num <= TWO_53 * off <= num {
        assert(size(d) <= h * size(exact)) by (nonlinear_arith)
            requires
                d == (off as real) / (u * u),
                size(exact) == (num as real) / (u * u),
                -num <= TWO_53 * off <= num,
                n == TWO_53 as int as real,
                h * n == 1int as real,
                h > 0int as real,
                u > 0int as real,
        ;
    } else {
        assert(size(d) <= (1int as real) / u) by (nonlinear_arith)
            requires
                d == (off as real) / (u * u),
                -one <= 2 * off <= one,
                u == one as real,
                u > 0int as real,
        ;
        assert(h * size(exact) >= 0int as real) by (nonlinear_arith)
            requires
                h > 0int as real,
        ;
    }
    assert((1int as real) / u > 0int as real) by (nonlinear_arith)
        requires
            u > 0int as real,
    ;
}

/// The least number is positive.
pub proof fn lemma_least()
    ensures
        least() > 0int as real,
{
    lemma_units_in_one();
    let u = units_in_one();
    assert((1int as real) / u > 0int as real) by (nonlinear_arith)
        requires
            u > 0int as real,
    ;
}

/// The least number is less than half a unit in the last place of one.
pub proof fn lemma_least_is_small()
    ensures
        least() <= half_ulp(),
{
    lemma2_to64();
    lemma2_to64_rest();
    lemma_pow2_strictly_increases(53, UNIT_EXPONENT as nat);
    let (u, n) = (units_in_one(), TWO_53 as int as real);
    assert(n <= u);
    assert((1int as real) / u <= (1int as real) / n) by (nonlinear_arith)
        requires
            n > 0int as real,
            n <= u,
    ;
}

/// Zero has no units.
pub proof fn lemma_zero_units()
    ensures
        units(0) == 0,
{
    assert(units(0) == 0) by (nonlinear_arith)
        requires
            units(0) == 0 * pow2(exponent(0)),
    ;
}

/// Either zero has the value zero.
pub proof fn lemma_value_of_zero(x: Double)
    requires
        x.zero(),
    ensures
        value(x) == 0int as real,
{
    lemma_zero_units();
    lemma_units_in_one();
    let u = units_in_one();
    assert((0int as real) / u == 0int as real) by (nonlinear_arith)
        requires
            u > 0int as real,
    ;
}

/// A product with no units rounds to zero.
pub proof fn lemma_zero_product(factor: Double)
    ensures
        nearest_magnitude(units(factor.magnitude()) * 0, pow2(UNIT_EXPONENT as nat)) == 0,
{
    lemma_pow2_pos(UNIT_EXPONENT as nat);
    lemma_zero_rounds_to_zero(pow2(UNIT_EXPONENT as nat));
}

/// Nothing rounds to zero.
pub proof fn lemma_zero_rounds_to_zero(den: nat)
    requires
        den > 0,
    ensures
        nearest_magnitude(0, den) == 0,
{
    lemma2_to64();
    assert(den * pow2(0) == den) by (nonlinear_arith)
        requires
            pow2(0) == 1,
    ;
    lemma_nearest_magnitude(0, den, 0, 0, 0);
}

/// A factor that is not negative keeps an order.
pub proof fn lemma_scaled_order(factor: real, low: real, high: real)
    by (nonlinear_arith)
    requires
        factor >= 0int as real,
        low <= high,
    ensures
        factor * low <= factor * high,
        low * factor <= high * factor,
{
}

/// The size of a product is the product of the sizes.
pub proof fn lemma_size_of_product(a: real, b: real)
    by (nonlinear_arith)
    ensures
        size(a * b) == size(a) * size(b),
{
}

/// Multiplication distributes.
pub proof fn lemma_distributes(factor: real, a: real, b: real)
    by (nonlinear_arith)
    ensures
        factor * (a + b) == factor * a + factor * b,
        (a + b) * factor == a * factor + b * factor,
        factor * (a - b) == factor * a - factor * b,
        (a - b) * factor == a * factor - b * factor,
{
}

} // verus!
