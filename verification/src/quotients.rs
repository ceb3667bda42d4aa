//! How far a rounded quotient, root or length is from the exact one.

use crate::arithmetic::lemma_integer_root_exists;
use crate::double::{exponent, integer_root, significand, units, Double, UNIT_EXPONENT};
use crate::error::{
    half_ulp, least, lemma_distributes, lemma_half_ulp, lemma_least, lemma_nearest_error,
    lemma_product_error, lemma_scaled_order, lemma_size_of_product, lemma_sum_error,
    lemma_value_of_zero, size, units_in_one, value,
};
use crate::finiteness::lemma_parts_of_sum;
use crate::reals::{
    dot, lemma_associates, lemma_commutes, lemma_exchanges, lemma_square, lemma_strict_order,
    lemma_zero, values,
};
use crate::rounding::{nearest_magnitude, TWO_53};
use crate::vector::Vector3;
use vstd::arithmetic::power2::{
    lemma2_to64, lemma2_to64_rest, lemma_pow2_adds, lemma_pow2_pos, lemma_pow2_strictly_increases,
    pow2,
};
use vstd::prelude::*;

verus! {

/// A quotient, in whole units: the product with the divisor is off by no more than its
/// half unit, or by half of the divisor's least part.
proof fn lemma_scaled_quotient(result: int, a: int, b: int, one: int)
    requires
        one > 0,
        ({
            let off = result * b - a * one;
            let (num, den) = (
                if a < 0 {
                    -(a * one)
                } else {
                    a * one
                },
                if b < 0 {
                    -b
                } else {
                    b
                },
            );
            ||| -num <= TWO_53 * off <= num
            ||| -den <= 2 * off <= den
        }),
    ensures
        ({
            let u = one as real;
            let (q, x, y) = ((result as real) / u, (a as real) / u, (b as real) / u);
            size(q * y - x) <= half_ulp() * size(x) + ((1int as real) / u) * size(y)
        }),
{
    lemma_half_ulp();
    let u = one as real;
    let (q, x, y) = ((result as real) / u, (a as real) / u, (b as real) / u);
    let h = half_ulp();
    let n = TWO_53 as int as real;
    let off = result * b - a * one;
    let d = (off as real) / (u * u);
    let l = (1int as real) / u;
    assert(q * y - x == d) by (nonlinear_arith)
        requires
            u == one as real,
            u > 0int as real,
            q == (result as real) / u,
            x == (a as real) / u,
            y == (b as real) / u,
            off == result * b - a * one,
            d == (off as real) / (u * u),
    ;
    assert(l > 0int as real) by (nonlinear_arith)
        requires
            l == (1int as real) / u,
            u > 0int as real,
    ;
    let (num, den) = (
        if a < 0 {
            -(a * one)
        } else {
            a * one
        },
        if b < 0 {
            -b
        } else {
            b
        },
    );
    lemma_scaled_order(l, 0int as real, size(y));
    lemma_scaled_order(h, 0int as real, size(x));
    if -num <= TWO_53 * off <= num {
        assert(size(x) == (num as real) / (u * u)) by (nonlinear_arith)
            requires
                x == (a as real) / u,
                u == one as real,
                u > 0int as real,
                num == (if a < 0 {
                    -(a * one)
                } else {
                    a * one
                }),
        ;
        assert(size(d) <= h * size(x)) by (nonlinear_arith)
            requires
                d == (off as real) / (u * u),
                size(x) == (num as real) / (u * u),
                -num <= TWO_53 * off <= num,
                n == TWO_53 as int as real,
                h * n == 1int as real,
                h > 0int as real,
                u > 0int as real,
        ;
    } else {
        assert(size(y) == (den as real) / u) by (nonlinear_arith)
            requires
                y == (b as real) / u,
                u > 0int as real,
                den == (if b < 0 {
                    -b
                } else {
                    b
                }),
        ;
        assert(size(d) <= l * size(y)) by (nonlinear_arith)
            requires
                d == (off as real) / (u * u),
                size(y) == (den as real) / u,
                l == (1int as real) / u,
                -den <= 2 * off <= den,
                u > 0int as real,
        ;
    }
}

/// A quotient times its divisor is the dividend, to rounding.
pub proof fn lemma_quotient_error(a: Double, b: Double)
    requires
        a.quotient(b).finite(),
        b.finite(),
    ensures
        a.finite(),
        value(b) != 0int as real,
        size(value(a.quotient(b)) * value(b) - value(a)) <= half_ulp() * size(value(a)) + least()
            * size(value(b)),
{
    reveal(Double::quotient);
    lemma_pow2_pos(UNIT_EXPONENT as nat);
    let one = pow2(UNIT_EXPONENT as nat);
    let (p, den) = (units(a.magnitude()), units(b.magnitude()));
    let num = p * one;
    assert(!b.zero());
    lemma_units_are_positive(b);
    lemma_nearest_error(num, den);
    let m = nearest_magnitude(num, den);
    let off = units(m) * den - num;
    let negative = a.negative() != b.negative();
    let result = a.quotient(b).scaled();
    assert(result == if negative {
        -(units(m) as int)
    } else {
        units(m) as int
    });
    let signed_off = result * b.scaled() - a.scaled() * one;
    assert(signed_off == if a.negative() {
        -off
    } else {
        off
    }) by (nonlinear_arith)
        requires
            signed_off == result * b.scaled() - a.scaled() * one,
            off == units(m) * den - num,
            num == p * one,
            negative == (a.negative() != b.negative()),
            result == (if negative {
                -(units(m) as int)
            } else {
                units(m) as int
            }),
            a.scaled() == (if a.negative() {
                -(p as int)
            } else {
                p as int
            }),
            b.scaled() == (if b.negative() {
                -(den as int)
            } else {
                den as int
            }),
    ;
    assert((if a.scaled() < 0 {
        -(a.scaled() * one)
    } else {
        a.scaled() * one
    }) == num) by (nonlinear_arith)
        requires
            num == p * one,
            a.scaled() == (if a.negative() {
                -(p as int)
            } else {
                p as int
            }),
    ;
    lemma_scaled_quotient(result, a.scaled(), b.scaled(), one as int);
    let u = one as real;
    let y = b.scaled() as real;
    assert(y / u != 0int as real) by (nonlinear_arith)
        requires
            y != 0int as real,
            u > 0int as real,
    ;
}

/// A number that is not zero has units.
pub(crate) proof fn lemma_units_are_positive(x: Double)
    requires
        x.finite(),
        !x.zero(),
    ensures
        units(x.magnitude()) > 0,
{
    let (f, p) = (significand(x.magnitude()), pow2(exponent(x.magnitude())));
    lemma_pow2_pos(exponent(x.magnitude()));
    assert(f * p > 0) by (nonlinear_arith)
        requires
            f > 0,
            p > 0,
    ;
}

/// A root is near a number whose square is near the radicand. The number is the exact
/// root, but for less than the least unit.
pub proof fn lemma_root_error(a: Double) -> (x: real)
    requires
        a.root().finite(),
        a.finite(),
        !a.negative(),
    ensures
        x >= 0int as real,
        size(x * x - value(a)) <= least() * x,
        size(value(a.root()) - x) <= half_ulp() * x + least(),
        value(a.root()) >= 0int as real,
{
    reveal(Double::root);
    lemma_half_ulp();
    lemma_least();
    lemma_pow2_pos(UNIT_EXPONENT as nat);
    let one = pow2(UNIT_EXPONENT as nat);
    let u = one as real;
    let l = (1int as real) / u;
    let h = half_ulp();
    if a.zero() {
        lemma_value_of_zero(a);
        lemma_zero(l);
        lemma_zero(h);
        0int as real
    } else {
        let p = units(a.magnitude());
        let square = p * one;
        let whole = integer_root(square);
        lemma_integer_root_exists(square);
        let inexact: nat = if whole * whole == square {
            0
        } else {
            1
        };
        let num: nat = 2 * whole + inexact;
        let m = nearest_magnitude(num, 2);
        lemma_nearest_error(num, 2);
        let off = units(m) * 2 - num;
        let x = (num as real) / ((2int as real) * u);
        let r = (units(m) as real) / u;
        assert(value(a.root()) == r);
        assert(-(2 * num) <= num * num - 4 * square <= 2 * num) by (nonlinear_arith)
            requires
                num == 2 * whole + inexact,
                whole * whole <= square < (whole + 1) * (whole + 1),
                inexact == (if whole * whole == square {
                    0nat
                } else {
                    1nat
                }),
        ;
        let v = (p as real) / u;
        lemma_root_in_reals(num, p, one, x, v);
        let d = (off as real) / ((2int as real) * u);
        assert(r - x == d) by (nonlinear_arith)
            requires
                r == (units(m) as real) / u,
                x == (num as real) / ((2int as real) * u),
                d == (off as real) / ((2int as real) * u),
                off == units(m) * 2 - num,
                u > 0int as real,
        ;
        lemma_scaled_order(h, 0int as real, x);
        lemma_zero(h);
        if -num <= TWO_53 * off <= num {
            let n = TWO_53 as int as real;
            assert(size(d) <= h * x) by (nonlinear_arith)
                requires
                    d == (off as real) / ((2int as real) * u),
                    x == (num as real) / ((2int as real) * u),
                    -num <= TWO_53 * off <= num,
                    n == TWO_53 as int as real,
                    h * n == 1int as real,
                    h > 0int as real,
                    u > 0int as real,
            ;
        } else {
            assert(size(d) <= l) by (nonlinear_arith)
                requires
                    d == (off as real) / ((2int as real) * u),
                    l == (1int as real) / u,
                    -2 <= 2 * off <= 2,
                    u > 0int as real,
            ;
        }
        assert(r >= 0int as real) by (nonlinear_arith)
            requires
                r == (units(m) as real) / u,
                u > 0int as real,
        ;
        x
    }
}

/// The same relation of squares, in units and in reals.
proof fn lemma_root_in_reals(num: nat, p: nat, one: nat, x: real, v: real)
    requires
        one > 0,
        -(2 * num) <= num * num - 4 * (p * one) <= 2 * num,
        x == (num as real) / ((2int as real) * (one as real)),
        v == (p as real) / (one as real),
    ensures
        x >= 0int as real,
        size(x * x - v) <= ((1int as real) / (one as real)) * x,
{
    let u = one as real;
    let l = (1int as real) / u;
    let n = num as real;
    let four = (4int as real) * (u * u);
    assert(four > 0int as real) by (nonlinear_arith)
        requires
            four == (4int as real) * (u * u),
            u > 0int as real,
    ;
    assert(x >= 0int as real) by (nonlinear_arith)
        requires
            x == n / ((2int as real) * u),
            n >= 0int as real,
            u > 0int as real,
    ;
    let e = num * num - 4 * (p * one);
    let d = (e as real) / four;
    assert(x * x - v == d) by (nonlinear_arith)
        requires
            x == n / ((2int as real) * u),
            v == (p as real) / u,
            u == one as real,
            n == num as real,
            u > 0int as real,
            e == num * num - 4 * (p * one),
            four == (4int as real) * (u * u),
            d == (e as real) / four,
    ;
    assert(l * x == (2int as real) * n / four) by (nonlinear_arith)
        requires
            x == n / ((2int as real) * u),
            l == (1int as real) / u,
            u > 0int as real,
            four == (4int as real) * (u * u),
    ;
    assert(size(d) <= (2int as real) * n / four) by (nonlinear_arith)
        requires
            d == (e as real) / four,
            -(2 * num) <= e <= 2 * num,
            n == num as real,
            four > 0int as real,
    ;
}

/// The least number is far below the least relative error.
pub proof fn lemma_least_is_tiny()
    ensures
        least() * (100000000000000000000000000000000000000int as real) <= half_ulp(),
        least() > 0int as real,
{
    lemma_least();
    lemma2_to64();
    lemma2_to64_rest();
    lemma_pow2_adds(64, 64);
    lemma_pow2_adds(53, 128);
    lemma_pow2_strictly_increases(181, UNIT_EXPONENT as nat);
    let big = 100000000000000000000000000000000000000int as real;
    let (u, n) = (units_in_one(), TWO_53 as int as real);
    assert(pow2(128) == 18446744073709551616 * 18446744073709551616);
    assert(n * big <= u) by (nonlinear_arith)
        requires
            n == 9007199254740992int as real,
            big == 100000000000000000000000000000000000000int as real,
            u >= (9007199254740992 * (18446744073709551616 * 18446744073709551616)) as real,
    ;
    assert(((1int as real) / u) * big <= (1int as real) / n) by (nonlinear_arith)
        requires
            n > 0int as real,
            big > 0int as real,
            n * big <= u,
    ;
}

/// Ten to the minus ninth.
pub open spec fn billionth() -> real {
    (1int as real) / (1000000000int as real)
}

/// The sum of the squares of a vector's components, rounded.
pub(crate) proof fn lemma_squares_error(v: Vector3, s: real)
    requires
        v.inner(v).finite(),
        s >= (1int as real) / (1000000000000000000int as real),
        s == dot(values(v), values(v)),
    ensures
        size(value(v.inner(v)) - s) <= (4int as real) * (half_ulp() * s),
{
    lemma_half_ulp();
    lemma_least_is_tiny();
    let (h, l) = (half_ulp(), least());
    let (p, q, r) = (v.x.product(v.x), v.y.product(v.y), v.z.product(v.z));
    let (a, b, c) = (value(v.x) * value(v.x), value(v.y) * value(v.y), value(v.z) * value(v.z));
    lemma_square(value(v.x));
    lemma_square(value(v.y));
    lemma_square(value(v.z));
    lemma_parts_of_sum(p.sum(q), r);
    lemma_parts_of_sum(p, q);
    lemma_product_error(v.x, v.x);
    lemma_product_error(v.y, v.y);
    lemma_product_error(v.z, v.z);
    lemma_sum_error(p, q);
    lemma_sum_error(p.sum(q), r);
    assert(s == a + b + c);
    lemma_distributes(h, a + b, c);
    lemma_distributes(h, a, b);
    lemma_scaled_order(h, 0int as real, a);
    lemma_scaled_order(h, 0int as real, b);
    lemma_scaled_order(h, 0int as real, c);
    lemma_zero(h);
    // The least part is no part of the error.
    lemma_scaled_order(h, (1int as real) / (1000000000000000000int as real), s);
    assert((1000int as real) * l <= h * s);
    // Each sum is off by its own half unit.
    let (x1, x2) = (value(p) + value(q), value(p.sum(q)) + value(r));
    let hs = h * s;
    lemma_scaled_order(h, h, (1int as real) / (10000int as real));
    lemma_scaled_order(s, h, (1int as real) / (10000int as real));
    assert(size(x1) <= s + hs + (2int as real) * l);
    lemma_scaled_order(h, size(x1), (2int as real) * s);
    assert(size(x1 - (a + b)) <= h * a + h * b + (2int as real) * l);
    lemma_scaled_order(h, size(x1), (a + b) + (h * a + h * b + (2int as real) * l));
    lemma_distributes(h, a + b, h * a + h * b + (2int as real) * l);
    lemma_scaled_order(h, h * a + h * b + (2int as real) * l, (2int as real) * hs);
    lemma_exchanges(h, 2int as real, hs);
    lemma_scaled_order(hs, h, (1int as real) / (10000int as real));
    lemma_commutes(h, hs);
    let e1 = h * a + h * b + (2int as real) * l + h * size(x1);
    assert(size(value(p.sum(q)) - (a + b)) <= e1);
    assert(size(x2 - s) <= e1 + h * c + l);
    lemma_scaled_order(h, size(x2), s + (4int as real) * hs);
    lemma_distributes(h, s, (4int as real) * hs);
    lemma_exchanges(h, 4int as real, hs);
}

/// The sum of the squares of a vector of a known length, rounded.
pub(crate) proof fn lemma_square_error(v: Vector3, y: real)
    requires
        v.inner(v).finite(),
        y >= billionth(),
        y * y == dot(values(v), values(v)),
    ensures
        size(value(v.inner(v)) - y * y) <= (4int as real) * (half_ulp() * (y * y)),
{
    lemma_scaled_order(y, billionth(), y);
    lemma_scaled_order(billionth(), billionth(), y);
    assert(billionth() * billionth() == (1int as real) / (1000000000000000000int as real))
        by (nonlinear_arith)
        requires
            billionth() == (1int as real) / (1000000000int as real),
    ;
    lemma_commutes(y, billionth());
    lemma_squares_error(v, y * y);
}

/// A root is near a number whose square is near the radicand.
pub(crate) proof fn lemma_root_near(a: Double, y: real, kappa: real)
    requires
        a.root().finite(),
        a.finite(),
        !a.negative(),
        y >= billionth(),
        size(value(a) - y * y) <= kappa * (y * y),
        0int as real <= kappa <= (1int as real) / (100int as real),
    ensures
        size(value(a.root()) - y) <= (kappa + (3int as real) * half_ulp()) * y,
{
    lemma_half_ulp();
    lemma_least_is_tiny();
    let (h, l) = (half_ulp(), least());
    let s = y * y;
    lemma_square(y);
    lemma_scaled_order(s, kappa, (1int as real) / (100int as real));
    let x = lemma_root_error(a);
    let r = value(a.root());
    lemma_square(x);
    lemma_scaled_order(y, billionth(), y);
    if x > (2int as real) * y {
        lemma_scaled_order(x, (2int as real) * y, x);
        lemma_scaled_order(y, (2int as real) * y, x);
        lemma_commutes(x, y);
        lemma_exchanges(y, 2int as real, y);
        lemma_exchanges(x, 2int as real, y);
        assert((4int as real) * s <= x * x);
        lemma_scaled_order(x, (4int as real) * l, x);
        lemma_exchanges(x, 4int as real, l);
        lemma_commutes(x, l);
        lemma_strict_order(x, 0int as real, x);
        lemma_zero(x);
        assert(false);
    }
    lemma_scaled_order(l, x, (2int as real) * y);
    lemma_exchanges(l, 2int as real, y);
    let hy = h * y;
    lemma_scaled_order(h, billionth(), y);
    assert((20000int as real) * l <= hy);
    lemma_scaled_order(y, (20000int as real) * l, hy);
    lemma_associates(20000int as real, l, y);
    lemma_associates(h, y, y);
    assert(size(x * x - s) <= kappa * s + (1int as real) / (10000int as real) * (h * s));
    // (x − y)·(x + y) = x² − y²
    lemma_distributes(x - y, x, y);
    lemma_distributes(x, x, y);
    lemma_distributes(y, x, y);
    lemma_commutes(x, y);
    assert((x - y) * (x + y) == x * x - s);
    lemma_size_of_product(x - y, x + y);
    lemma_scaled_order(size(x - y), y, x + y);
    let most = kappa * y + (1int as real) / (10000int as real) * hy;
    assert(size(x - y) * y <= most * y) by {
        lemma_distributes(y, kappa * y, (1int as real) / (10000int as real) * hy);
        lemma_associates((1int as real) / (10000int as real), hy, y);
        lemma_associates(kappa, y, y);
    }
    if size(x - y) > most {
        lemma_strict_order(y, most, size(x - y));
        lemma_commutes(y, most);
        lemma_commutes(y, size(x - y));
    }
    lemma_scaled_order(h, x, (2int as real) * y);
    lemma_exchanges(h, 2int as real, y);
    lemma_distributes(y, kappa, (3int as real) * h);
    lemma_associates(3int as real, h, y);
}

/// A length is near the exact one, unless that is below 1e-9.
pub proof fn lemma_length_error(v: Vector3, y: real)
    requires
        v.length().finite(),
        v.inner(v).finite(),
        y >= billionth(),
        y * y == dot(values(v), values(v)),
    ensures
        size(value(v.length()) - y) <= (6int as real) * (half_ulp() * y),
{
    lemma_half_ulp();
    lemma_least_is_tiny();
    lemma_square_error(v, y);
    let (h, l) = (half_ulp(), least());
    let a = v.inner(v);
    let s = y * y;
    lemma_square(y);
    lemma_scaled_order(s, h, (1int as real) / (10000int as real));
    assert(value(a) > 0int as real) by {
        lemma_scaled_order(y, billionth(), y);
        lemma_scaled_order(billionth(), billionth(), y);
        lemma_strict_order(billionth(), 0int as real, billionth());
        lemma_zero(billionth());
        lemma_commutes(y, billionth());
    }
    assert(!a.negative()) by {
        if a.negative() {
            lemma_value_of_negative(a);
        }
    }
    let x = lemma_root_error(a);
    let r = value(v.length());
    // x is not larger than twice y.
    lemma_scaled_order(y, billionth(), y);
    lemma_square(x);
    if x > (2int as real) * y {
        lemma_scaled_order(x, (2int as real) * y, x);
        lemma_scaled_order(y, (2int as real) * y, x);
        lemma_commutes(x, y);
        lemma_exchanges(y, 2int as real, y);
        lemma_exchanges(x, 2int as real, y);
        // 4·s ≤ x², and l·x ≤ x²/4.
        assert((4int as real) * s <= x * x);
        lemma_scaled_order(x, (4int as real) * l, x);
        lemma_exchanges(x, 4int as real, l);
        lemma_commutes(x, l);
        lemma_strict_order(x, 0int as real, x);
        lemma_zero(x);
        assert(false);
    }
    lemma_scaled_order(l, x, (2int as real) * y);
    lemma_exchanges(l, 2int as real, y);
    // l·y is less than a thousandth of h·y².
    let hy = h * y;
    lemma_scaled_order(h, billionth(), y);
    assert((20000int as real) * l <= hy);
    lemma_scaled_order(y, (20000int as real) * l, hy);
    lemma_associates(20000int as real, l, y);
    lemma_associates(h, y, y);
    assert(size(x * x - s) <= (4int as real) * (h * s) + (1int as real) / (10000int as real) * (h
        * s));
    // (x − y)·(x + y) = x² − y²
    lemma_distributes(x - y, x, y);
    lemma_distributes(x, x, y);
    lemma_distributes(y, x, y);
    lemma_commutes(x, y);
    assert((x - y) * (x + y) == x * x - s);
    lemma_size_of_product(x - y, x + y);
    lemma_scaled_order(size(x - y), y, x + y);
    let most = (41int as real) / (10int as real) * hy;
    assert(size(x - y) * y <= most * y) by {
        lemma_associates((41int as real) / (10int as real), hy, y);
    }
    if size(x - y) > most {
        lemma_strict_order(y, most, size(x - y));
        lemma_commutes(y, most);
        lemma_commutes(y, size(x - y));
    }
    lemma_scaled_order(h, x, (2int as real) * y);
    lemma_scaled_order(h, x, y + most);
    lemma_distributes(h, y, most);
    lemma_exchanges(h, (41int as real) / (10int as real), hy);
    lemma_scaled_order(hy, h, (1int as real) / (10000int as real));
    lemma_commutes(h, hy);
}

pub(crate) proof fn lemma_value_of_negative(a: Double)
    requires
        a.negative(),
        a.finite(),
    ensures
        value(a) <= 0int as real,
{
    lemma_pow2_pos(UNIT_EXPONENT as nat);
    let u = pow2(UNIT_EXPONENT as nat) as real;
    let n = a.scaled() as real;
    assert(n / u <= 0int as real) by (nonlinear_arith)
        requires
            n <= 0int as real,
            u > 0int as real,
    ;
}

} // verus!
