//! The logarithm of a rigid motion and the exponential: how far the motion that comes
//! back is from the one that was given.

use crate::double::{
    exponent, significand, Double, HALF, ONE, TWO, UNIT_EXPONENT,
};
use crate::error::{
    half_ulp, least, lemma_distributes, lemma_half_ulp, lemma_product_error,
    lemma_scaled_order, lemma_size_of_product, lemma_sum_error, lemma_value_of_zero, size, value,
};
use crate::kinematics::{hat, inverse_left_jacobian, log_coefficient, Matrix3, SMALL_ANGLE};
use crate::logarithm::{
    describes_rotation, lemma_exponential_undoes_the_logarithm, rounding, series,
};
use crate::quotients::{billionth, lemma_least_is_tiny, lemma_quotient_error};
use crate::range::{
    large, lemma_inner_within, lemma_large, lemma_length_within, lemma_product_within,
    lemma_quotient_in_range, lemma_sum_in_range, lemma_sum_within, nonillion, vector_within, within,
};
use crate::reals::{
    bounded, cross, dot, lemma_associates, lemma_bounded_product, lemma_cancels,
    lemma_commutes, lemma_double_cross, lemma_exchanges, lemma_minus, lemma_one,
    lemma_root_order, lemma_square, lemma_strict_order, lemma_zero, values,
};
use crate::rounding::TWO_52;
use crate::slip::{lemma_value_of_half, lemma_value_of_negated, lemma_value_of_one};
use crate::small_angle::lemma_not_small;
use crate::vector::Vector3;
use vstd::arithmetic::power2::{
    lemma2_to64, lemma2_to64_rest, lemma_pow2_adds, lemma_pow2_pos, pow2,
};
use vstd::prelude::*;

verus! {

/// A number times a half unit, and times a hundred of them.
proof fn lemma_small_part(y: real)
    requires
        y >= 0int as real,
    ensures
        0int as real <= half_ulp() * y,
        (10000int as real) * (half_ulp() * y) <= y,
{
    lemma_half_ulp();
    let h = half_ulp();
    lemma_scaled_order(y, (10000int as real) * h, 1int as real);
    lemma_one(y);
    lemma_associates(10000int as real, h, y);
    lemma_scaled_order(h, 0int as real, y);
    lemma_zero(h);
}

/// The inverse of a rounded square, times the exact square.
proof fn lemma_inverse_square(theta: real, tau: real, sq: real, inverse: real)
    requires
        (100int as real) * billionth() <= theta <= 4int as real,
        size(tau - theta) <= (6int as real) * (half_ulp() * theta),
        size(sq - tau * tau) <= half_ulp() * size(tau * tau) + least(),
        size(inverse * sq - (1int as real)) <= half_ulp() + least() * size(sq),
    ensures
        size(inverse * (theta * theta) - (1int as real)) <= (20int as real) * half_ulp(),
        size(inverse) * (theta * theta) <= 2int as real,
{
    lemma_half_ulp();
    lemma_least_is_tiny();
    let (h, l, one) = (half_ulp(), least(), 1int as real);
    let s = theta * theta;
    let hs = h * s;
    lemma_square(theta);
    lemma_small_part(theta);
    lemma_small_part(s);
    // θ² is at least 1e-14, so that the least part does not count.
    let low = (100int as real) * billionth();
    lemma_scaled_order(theta, low, theta);
    lemma_scaled_order(low, low, theta);
    lemma_commutes(theta, low);
    assert(low * low == one / (100000000000000int as real)) by (nonlinear_arith)
        requires
            one == 1int as real,
            low == (100int as real) * ((1int as real) / (1000000000int as real)),
    ;
    lemma_scaled_order(h, one / (100000000000000int as real), s);
    assert((1000int as real) * l <= hs);
    // τ² − θ² = (τ − θ)·(τ + θ)
    lemma_distributes(tau - theta, tau, theta);
    lemma_distributes(tau, tau, theta);
    lemma_distributes(theta, tau, theta);
    lemma_commutes(tau, theta);
    lemma_size_of_product(tau - theta, tau + theta);
    let ht = h * theta;
    lemma_bounded_product(tau - theta, tau + theta, (6int as real) * ht, (201int as real) / (
    100int as real) * theta);
    assert(((6int as real) * ht) * ((201int as real) / (100int as real) * theta) == (1206int as real)
        / (100int as real) * hs) by (nonlinear_arith)
        requires
            ht == h * theta,
            hs == h * (theta * theta),
    ;
    assert(size(tau * tau - s) <= (1206int as real) / (100int as real) * hs);
    lemma_scaled_order(h, size(tau * tau), (101int as real) / (100int as real) * s);
    lemma_exchanges(h, (101int as real) / (100int as real), s);
    let gap = (133int as real) / (10int as real) * hs;
    assert(size(sq - s) <= gap);
    // The inverse is not much larger than 1/θ².
    let a = size(inverse);
    assert(s <= 16int as real) by {
        lemma_scaled_order(theta, theta, 4int as real);
        lemma_commutes(theta, 4int as real);
    }
    lemma_scaled_order(l, size(sq), 20int as real);
    assert(size(inverse * sq) <= (11int as real) / (10int as real));
    lemma_size_of_product(inverse, sq);
    lemma_scaled_order(a, (99int as real) / (100int as real) * s, size(sq));
    lemma_exchanges(a, (99int as real) / (100int as real), s);
    assert(a * s <= (12int as real) / (10int as real));
    // The two differ by the inverse times the gap.
    lemma_distributes(inverse, s, sq);
    lemma_size_of_product(inverse, s - sq);
    lemma_scaled_order(a, size(s - sq), gap);
    lemma_exchanges(a, (133int as real) / (10int as real), hs);
    lemma_exchanges(a, h, s);
    lemma_scaled_order(h, a * s, (12int as real) / (10int as real));
}

/// The divisor of the second term, 2·θ·sin θ, rounded.
proof fn lemma_divisor(
    theta: real,
    tau: real,
    sin: real,
    sine: real,
    double: real,
    divisor: real,
    eps: real,
)
    requires
        (100int as real) * billionth() <= theta <= 4int as real,
        size(tau - theta) <= (6int as real) * (half_ulp() * theta),
        size(sine - sin) <= eps * size(sin),
        size(double - (2int as real) * tau) <= half_ulp() * size((2int as real) * tau) + least(),
        size(divisor - double * sine) <= half_ulp() * size(double * sine) + least(),
        0int as real <= eps <= (1int as real) / (10int as real),
        least() <= half_ulp() * (theta * size(sin)),
    ensures
        size(divisor - ((2int as real) * theta) * sin) <= ((20int as real) * half_ulp() + (
        2int as real) * eps) * (theta * size(sin)),
{
    lemma_half_ulp();
    lemma_least_is_tiny();
    let (h, l, two) = (half_ulp(), least(), 2int as real);
    let ht = h * theta;
    lemma_small_part(theta);
    lemma_scaled_order(h, (1int as real) / (10000000int as real), theta);
    assert((1000int as real) * l <= ht);
    let n = size(sin);
    let x = theta * n;
    lemma_scaled_order(theta, 0int as real, n);
    lemma_zero(theta);
    lemma_small_part(x);
    let hx = h * x;
    lemma_scaled_order(h, size(two * tau), (201int as real) / (100int as real) * theta);
    lemma_exchanges(h, (201int as real) / (100int as real), theta);
    assert(size(double - two * theta) <= (15int as real) * ht);
    // (double − 2θ)·sine + 2θ·(sine − sin)
    lemma_distributes(sine, double, two * theta);
    lemma_distributes(two * theta, sine, sin);
    lemma_scaled_order(n, eps, (1int as real) / (10int as real));
    let most = (11int as real) / (10int as real) * n;
    assert(size(sine) <= most);
    lemma_bounded_product(double - two * theta, sine, (15int as real) * ht, most);
    lemma_bounded_product(two * theta, sine - sin, two * theta, eps * n);
    lemma_commutes(sine, double);
    assert(((15int as real) * ht) * most == (165int as real) / (10int as real) * hx)
        by (nonlinear_arith)
        requires
            ht == h * theta,
            most == (11int as real) / (10int as real) * n,
            hx == h * (theta * n),
    ;
    assert((two * theta) * (eps * n) == two * (eps * x)) by (nonlinear_arith)
        requires
            x == theta * n,
    ;
    lemma_scaled_order(x, 0int as real, eps);
    lemma_zero(x);
    lemma_commutes(x, eps);
    lemma_commutes(x, 0int as real);
    // |double·sine| ≤ 2.3·θ·|sin|
    lemma_bounded_product(double, sine, (202int as real) / (100int as real) * theta, most);
    assert(((202int as real) / (100int as real) * theta) * most == (2222int as real) / (1000int as real)
        * x) by (nonlinear_arith)
        requires
            x == theta * n,
            most == (11int as real) / (10int as real) * n,
    ;
    lemma_scaled_order(h, size(double * sine), (2222int as real) / (1000int as real) * x);
    lemma_exchanges(h, (2222int as real) / (1000int as real), x);
    lemma_distributes(x, (20int as real) * h, two * eps);
    lemma_associates(20int as real, h, x);
    lemma_associates(two, eps, x);
}

/// The second term, (1 + cos θ)/(2·θ·sin θ), times θ². `share` says how much the error
/// of the cosine counts, which is the more the nearer the angle is to a half turn.
proof fn lemma_cosine_term(
    square: real,
    exact_divisor: real,
    divisor: real,
    numerator: real,
    rounded: real,
    quotient: real,
    term: real,
    rho: real,
    cos_off: real,
    share: real,
)
    requires
        square > 0int as real,
        square <= 16int as real,
        exact_divisor != 0int as real,
        size(divisor - exact_divisor) <= rho * size(exact_divisor),
        size(rounded - numerator) <= cos_off + half_ulp() * (size(numerator) + cos_off),
        size(quotient * divisor - rounded) <= half_ulp() * size(rounded) + least() * size(divisor),
        term * exact_divisor == numerator * square,
        size(term) <= 1int as real,
        cos_off * square <= size(exact_divisor) * share,
        0int as real <= cos_off,
        0int as real <= rho <= (1int as real) / (4int as real),
        0int as real <= share <= (1int as real) / (4int as real),
    ensures
        size(quotient * square - term) <= (2int as real) * rho + (4int as real) * half_ulp() + (
        2int as real) * share,
        size(quotient * square) <= 2int as real,
{
    lemma_half_ulp();
    lemma_least_is_tiny();
    let (h, l, one) = (half_ulp(), least(), 1int as real);
    let d = size(exact_divisor);
    let (q, n, w) = (quotient * square, square, size(numerator));
    lemma_small_part(w);
    lemma_small_part(cos_off);
    // What the product with the exact divisor is off by.
    lemma_distributes(quotient, exact_divisor, divisor);
    lemma_size_of_product(quotient, exact_divisor - divisor);
    lemma_scaled_order(size(quotient), size(exact_divisor - divisor), rho * d);
    lemma_exchanges(size(quotient), rho, d);
    let b = size(quotient) * d;
    lemma_scaled_order(d, rho, (1int as real) / (4int as real));
    assert(size(divisor) <= (2int as real) * d);
    lemma_scaled_order(l, size(divisor), (2int as real) * d);
    lemma_distributes(h, w, cos_off);
    lemma_scaled_order(h, size(rounded), (2int as real) * w + (2int as real) * cos_off);
    lemma_distributes(h, (2int as real) * w, (2int as real) * cos_off);
    lemma_exchanges(h, 2int as real, w);
    lemma_exchanges(h, 2int as real, cos_off);
    lemma_exchanges(l, 2int as real, d);
    let off = size(quotient * exact_divisor - numerator);
    let rest = (3int as real) * (h * w) + (101int as real) / (100int as real) * cos_off + (
    2int as real) * (l * d);
    assert(off <= rho * b + rest);
    // Times θ², and divided by the divisor.
    lemma_scaled_order(n, off, rho * b + rest);
    lemma_distributes(n, quotient * exact_divisor, numerator);
    lemma_size_of_product(n, quotient * exact_divisor - numerator);
    lemma_commutes(n, numerator);
    lemma_distributes(exact_divisor, q, term);
    lemma_size_of_product(exact_divisor, q - term);
    assert(n * (quotient * exact_divisor) == exact_divisor * q) by (nonlinear_arith)
        requires
            q == quotient * n,
    ;
    lemma_commutes(exact_divisor, term);
    let e = size(q - term);
    assert(d * e == n * off);
    // n·rest ≤ d·(3·h + 1.01·share + h)
    lemma_distributes(n, (3int as real) * (h * w) + (101int as real) / (100int as real) * cos_off, (
    2int as real) * (l * d));
    lemma_distributes(n, (3int as real) * (h * w), (101int as real) / (100int as real) * cos_off);
    lemma_exchanges(n, 3int as real, h * w);
    lemma_exchanges(n, h, w);
    lemma_exchanges(n, (101int as real) / (100int as real), cos_off);
    lemma_commutes(n, cos_off);
    lemma_exchanges(n, 2int as real, l * d);
    lemma_exchanges(n, l, d);
    lemma_size_of_product(numerator, n);
    lemma_size_of_product(term, exact_divisor);
    lemma_scaled_order(d, size(term), one);
    lemma_one(d);
    lemma_commutes(n, w);
    assert(n * w <= d);
    lemma_scaled_order(h, n * w, d);
    lemma_scaled_order(d, n, 16int as real);
    lemma_scaled_order(l, n * d, (16int as real) * d);
    lemma_exchanges(l, 16int as real, d);
    lemma_scaled_order(d, (32int as real) * l, h);
    lemma_associates(32int as real, l, d);
    let hd = h * d;
    assert(n * rest <= (4int as real) * hd + (101int as real) / (100int as real) * (d * share));
    // n·(rho·b) = d·(rho·|q|)
    lemma_size_of_product(quotient, n);
    assert(n * (rho * b) == d * (rho * size(q))) by (nonlinear_arith)
        requires
            b == size(quotient) * d,
            size(q) == size(quotient) * n,
    ;
    lemma_distributes(n, rho * b, rest);
    let most = rho * size(q) + (4int as real) * h + (101int as real) / (100int as real) * share;
    lemma_distributes(d, rho * size(q) + (4int as real) * h, (101int as real) / (100int as real)
        * share);
    lemma_distributes(d, rho * size(q), (4int as real) * h);
    lemma_exchanges(d, 4int as real, h);
    lemma_commutes(d, h);
    lemma_exchanges(d, (101int as real) / (100int as real), share);
    assert(d * e <= d * most);
    if e > most {
        lemma_strict_order(d, most, e);
    }
    // |q| is below two.
    lemma_scaled_order(size(q), rho, (1int as real) / (4int as real));
    assert(size(q) <= 2int as real);
    lemma_scaled_order(rho, size(q), 2int as real);
}

/// What is asked of a sine and a cosine that are handed in: the sine is off by no more
/// than `eps` of itself, the cosine by no more than `cos_off`, and `share` is what that
/// counts for: cos_off·θ/(2·|sin θ|), which is large only near a half turn.
pub open spec fn accurate(
    sine: Double,
    cosine: Double,
    angle: real,
    sin: real,
    cos: real,
    eps: real,
    cos_off: real,
    share: real,
) -> bool {
    &&& sine.finite() && cosine.finite()
    &&& size(value(sine) - sin) <= eps * size(sin)
    &&& size(value(cosine) - cos) <= cos_off
    &&& cos_off * angle <= ((2int as real) * size(sin)) * share
    &&& size(sin) >= (1int as real) / (100000000000000000000int as real)
    &&& 0int as real <= eps <= (1int as real) / (10int as real)
    &&& 0int as real <= cos_off <= (1int as real) / (10int as real)
    &&& 0int as real <= share <= (1int as real) / (4int as real)
}

/// By how much the coefficient, times θ², is off.
pub open spec fn coefficient_error(eps: real, share: real) -> real {
    (60int as real) * half_ulp() + (2int as real) * eps + (2int as real) * share
}

/// The exact second term: 2·sin·term = θ·(1 + cos).
proof fn lemma_exact_term(angle: real, sin: real, cos: real, kappa: real)
    requires
        sin * sin + cos * cos == 1int as real,
        cos != 1int as real,
        (2int as real) * (((1int as real) - cos) * kappa) == (2int as real) * ((1int as real) - cos)
            - angle * sin,
    ensures
        ((1int as real) - kappa) * (((2int as real) * angle) * sin) == ((1int as real) + cos) * (
        angle * angle),
{
    let (one, two) = (1int as real, 2int as real);
    let (m, g) = (one - cos, one - kappa);
    lemma_distributes(m, one, kappa);
    lemma_one(m);
    assert(two * (m * g) == angle * sin);
    // m·(g·(2·θ·sin)) = θ²·sin² = m·((1 + cos)·θ²)
    assert(m * (g * ((two * angle) * sin)) == (two * (m * g)) * (angle * sin))
        by (nonlinear_arith)
        requires
            two == 2int as real,
    ;
    assert((angle * sin) * (angle * sin) == (sin * sin) * (angle * angle)) by (nonlinear_arith);
    assert(sin * sin == m * (one + cos)) by {
        lemma_distributes(m, one, cos);
        lemma_distributes(cos, one, cos);
        lemma_one(cos);
        lemma_commutes(m, cos);
    }
    lemma_associates(m, one + cos, angle * angle);
    let (x, y) = (g * ((two * angle) * sin), (one + cos) * (angle * angle));
    lemma_distributes(m, x, y);
    lemma_cancels(m, x - y);
}

/// The closed form of the coefficient, times θ².
proof fn lemma_closed_form(
    omega: Vector3,
    sine: Double,
    cosine: Double,
    angle: real,
    sin: real,
    cos: real,
    exact: real,
    eps: real,
    cos_off: real,
    share: real,
)
    requires
        vector_within(omega, 4int as real),
        accurate(sine, cosine, angle, sin, cos, eps, cos_off, share),
        (100int as real) * billionth() <= angle <= 4int as real,
        angle * angle == dot(values(omega), values(omega)),
        sin * sin + cos * cos == 1int as real,
        cos != 1int as real,
        (2int as real) * (((1int as real) - cos) * (exact * (angle * angle))) == (2int as real) * ((
        1int as real) - cos) - angle * sin,
        0int as real <= exact * (angle * angle) <= 1int as real,
        !omega.length().less(Double { bits: SMALL_ANGLE }),
    ensures
        log_coefficient(omega.length(), sine, cosine).finite(),
        size(value(log_coefficient(omega.length(), sine, cosine)) - exact) * (angle * angle)
            <= coefficient_error(eps, share),
{
    lemma_half_ulp();
    lemma_least_is_tiny();
    lemma_large();
    lemma_value_of_one();
    lemma_value_of_two();
    let (h, l, one, two) = (half_ulp(), least(), 1int as real, 2int as real);
    let s = angle * angle;
    lemma_square(sin);
    lemma_square(cos);
    lemma_one(one);
    lemma_root_order(sin, one);
    lemma_root_order(cos, one);
    lemma_length_within(omega, 4int as real, angle);
    let length = omega.length();
    let tau = value(length);
    lemma_small_part(angle);
    // θ²
    lemma_scaled_order(angle, angle, 4int as real);
    lemma_commutes(angle, 4int as real);
    assert(s <= 16int as real);
    let low = one / (10000000int as real);
    lemma_scaled_order(angle, low, angle);
    lemma_scaled_order(low, low, angle);
    lemma_commutes(angle, low);
    assert(low * low == one / (100000000000000int as real)) by (nonlinear_arith)
        requires
            one == 1int as real,
            low == one / (10000000int as real),
    ;
    // The first term.
    lemma_product_within(length, length, 5int as real, 5int as real);
    let sq = length.product(length);
    lemma_product_error(length, length);
    let unit = Double { bits: ONE };
    lemma_rounded_square(angle, tau, value(sq));
    lemma_scaled_order(large(), (9int as real) / (10int as real) * s, size(value(sq)));
    lemma_scaled_order(large(), one / (1000000000000000int as real), (9int as real) / (10int as real)
        * s);
    lemma_quotient_in_range(unit, sq);
    lemma_quotient_error(unit, sq);
    let first = unit.quotient(sq);
    lemma_one(h);
    lemma_inverse_square(angle, tau, value(sq), value(first));
    // The divisor of the second.
    let n = size(sin);
    let x = angle * n;
    lemma_scaled_order(n, low, angle);
    lemma_commutes(n, angle);
    lemma_scaled_order(low, one / (100000000000000000000int as real), n);
    lemma_commutes(low, n);
    assert(x >= low * (one / (100000000000000000000int as real)));
    assert(low * (one / (100000000000000000000int as real)) == one / (
    1000000000000000000000000000int as real)) by (nonlinear_arith)
        requires
            one == 1int as real,
            low == one / (10000000int as real),
    ;
    lemma_scaled_order(h, one / (1000000000000000000000000000int as real), x);
    assert(l <= h * x);
    let pair = Double { bits: TWO };
    lemma_product_within(pair, length, 2int as real, 5int as real);
    let double = pair.product(length);
    lemma_product_error(pair, length);
    lemma_scaled_order(n, eps, one);
    lemma_one(n);
    lemma_product_within(double, sine, 21int as real, 2int as real);
    let divisor = double.product(sine);
    lemma_product_error(double, sine);
    lemma_divisor(angle, tau, sin, value(sine), value(double), value(divisor), eps);
    let exact_divisor = (two * angle) * sin;
    lemma_size_of_product(two * angle, sin);
    lemma_associates(two, angle, n);
    assert(size(exact_divisor) == two * x);
    let rho = (10int as real) * h + eps;
    assert(((20int as real) * h + two * eps) * x == rho * (two * x)) by (nonlinear_arith)
        requires
            rho == (10int as real) * h + eps,
            two == 2int as real,
    ;
    lemma_scaled_order(two * x, rho, one / (4int as real));
    assert(size(value(divisor)) >= x);
    // The numerator.
    lemma_sum_within(unit, cosine, one, 2int as real);
    let numerator = unit.sum(cosine);
    lemma_sum_error(unit, cosine);
    lemma_scaled_order(h, size(one + value(cosine)), size(one + cos) + cos_off);
    // The quotient.
    lemma_scaled_order(large(), x, size(value(divisor)));
    lemma_scaled_order(large(), one / (1000000000000000000000000000int as real), x);
    lemma_quotient_in_range(numerator, divisor);
    lemma_quotient_error(numerator, divisor);
    let second = numerator.quotient(divisor);
    let kappa = exact * s;
    lemma_exact_term(angle, sin, cos, kappa);
    assert(cos_off * s <= size(exact_divisor) * share) by {
        lemma_associates(cos_off, angle, angle);
        lemma_scaled_order(angle, cos_off * angle, (two * n) * share);
        assert(((two * n) * share) * angle == (two * x) * share) by (nonlinear_arith)
            requires
                x == angle * n,
        ;
    }
    assert(exact_divisor != 0int as real);
    lemma_strict_order(angle, 0int as real, angle);
    lemma_zero(angle);
    lemma_cosine_term(
        s,
        exact_divisor,
        value(divisor),
        one + cos,
        value(numerator),
        value(second),
        one - kappa,
        rho,
        cos_off,
        share,
    );
    // The difference.
    let (a, b) = (value(first), value(second));
    lemma_value_of_negated(second);
    lemma_difference_in_range(a, b, s);
    lemma_sum_in_range(first, second.negated());
    lemma_sum_error(first, second.negated());
    let coefficient = value(log_coefficient(length, sine, cosine));
    lemma_scaled_order(s, size(coefficient - (a - b)), h * size(a - b));
    lemma_size_of_product(coefficient - (a - b), s);
    lemma_distributes(s, coefficient, a - b);
    lemma_distributes(s, a, b);
    lemma_associates(h, size(a - b), s);
    lemma_size_of_product(a - b, s);
    lemma_size_of_product(a, s);
    lemma_scaled_order(h, size((a - b) * s), 4int as real);
    lemma_size_of_product(coefficient - exact, s);
    lemma_distributes(s, coefficient, exact);
}

/// The square of a rounded length.
proof fn lemma_rounded_square(theta: real, tau: real, sq: real)
    requires
        (100int as real) * billionth() <= theta <= 4int as real,
        size(tau - theta) <= (6int as real) * (half_ulp() * theta),
        size(sq - tau * tau) <= half_ulp() * size(tau * tau) + least(),
    ensures
        sq >= (9int as real) / (10int as real) * (theta * theta),
        sq <= 20int as real,
{
    lemma_half_ulp();
    lemma_least_is_tiny();
    let (h, l, one) = (half_ulp(), least(), 1int as real);
    let s = theta * theta;
    lemma_small_part(theta);
    let low = one / (10000000int as real);
    lemma_scaled_order(theta, low, theta);
    lemma_scaled_order(low, low, theta);
    lemma_commutes(theta, low);
    assert(low * low == one / (100000000000000int as real)) by (nonlinear_arith)
        requires
            one == 1int as real,
            low == one / (10000000int as real),
    ;
    let (down, up) = ((99int as real) / (100int as real), (101int as real) / (100int as real));
    lemma_scaled_order(tau, down * theta, tau);
    lemma_scaled_order(down * theta, down * theta, tau);
    lemma_commutes(tau, down * theta);
    assert((down * theta) * (down * theta) == (9801int as real) / (10000int as real) * s)
        by (nonlinear_arith)
        requires
            s == theta * theta,
            down == (99int as real) / (100int as real),
    ;
    lemma_scaled_order(tau, tau, up * theta);
    lemma_scaled_order(up * theta, tau, up * theta);
    lemma_commutes(tau, up * theta);
    assert((up * theta) * (up * theta) == (10201int as real) / (10000int as real) * s)
        by (nonlinear_arith)
        requires
            s == theta * theta,
            up == (101int as real) / (100int as real),
    ;
    lemma_scaled_order(theta, theta, 4int as real);
    lemma_commutes(theta, 4int as real);
    lemma_scaled_order(size(tau * tau), h, one / (10000int as real));
}

/// The two terms differ by a number in range.
proof fn lemma_difference_in_range(a: real, b: real, s: real)
    requires
        size(a) * s <= 2int as real,
        size(b * s) <= 2int as real,
        s >= (1int as real) / (100000000000000int as real),
    ensures
        size(a - b) <= large(),
{
    lemma_large();
    lemma_size_of_product(b, s);
    let most = 200000000000000int as real;
    if size(a) > most {
        lemma_strict_order(s, most, size(a));
        lemma_scaled_order(most, (1int as real) / (100000000000000int as real), s);
        lemma_commutes(s, most);
        lemma_commutes(s, size(a));
    }
    if size(b) > most {
        lemma_strict_order(s, most, size(b));
        lemma_scaled_order(most, (1int as real) / (100000000000000int as real), s);
        lemma_commutes(s, most);
        lemma_commutes(s, size(b));
    }
}

/// The value of two.
pub(crate) proof fn lemma_value_of_two()
    ensures
        value(Double { bits: TWO }) == 2int as real,
        (Double { bits: TWO }).finite(),
{
    lemma2_to64();
    lemma2_to64_rest();
    assert(significand(TWO as nat) == TWO_52);
    assert(exponent(TWO as nat) == 1023);
    lemma_pow2_adds(52, 1023);
    lemma_pow2_adds(1, 1074);
    lemma_pow2_pos(UNIT_EXPONENT as nat);
    let u = pow2(UNIT_EXPONENT as nat) as real;
    let n = (Double { bits: TWO }).scaled() as real;
    assert(n == (2int as real) * u);
    assert(n / u == 2int as real) by (nonlinear_arith)
        requires
            n == (2int as real) * u,
            u > 0int as real,
    ;
}

/// Whether the rows of a matrix are bounded.
spec fn rows_within(m: Matrix3, most: real) -> bool {
    vector_within(m.x, most) && vector_within(m.y, most) && vector_within(m.z, most)
}

proof fn lemma_stretched_within(v: Vector3, factor: Double, most: real, other: real)
    requires
        vector_within(v, most),
        within(factor, other),
        most * other <= nonillion(),
    ensures
        vector_within(v.stretched(factor), (2int as real) * (most * other) + (1int as real)),
{
    lemma_product_within(v.x, factor, most, other);
    lemma_product_within(v.y, factor, most, other);
    lemma_product_within(v.z, factor, most, other);
}

proof fn lemma_vectors_within(a: Vector3, b: Vector3, most: real, other: real)
    requires
        vector_within(a, most),
        vector_within(b, other),
        most + other <= nonillion(),
    ensures
        vector_within(a.sum(b), (2int as real) * (most + other)),
        vector_within(a.difference(b), (2int as real) * (most + other)),
{
    lemma_value_of_negated(b.x);
    lemma_value_of_negated(b.y);
    lemma_value_of_negated(b.z);
    lemma_sum_within(a.x, b.x, most, other);
    lemma_sum_within(a.y, b.y, most, other);
    lemma_sum_within(a.z, b.z, most, other);
    lemma_sum_within(a.x, b.x.negated(), most, other);
    lemma_sum_within(a.y, b.y.negated(), most, other);
    lemma_sum_within(a.z, b.z.negated(), most, other);
}

proof fn lemma_image_within(m: Matrix3, v: Vector3, most: real, other: real)
    requires
        rows_within(m, most),
        vector_within(v, other),
        0int as real <= most * other,
        most * other <= 1000000000000000000000000int as real,
    ensures
        vector_within(m.image(v), (20int as real) * (most * other) + (10int as real)),
{
    lemma_inner_within(m.x, v, most, other);
    lemma_inner_within(m.y, v, most, other);
    lemma_inner_within(m.z, v, most, other);
}

/// The linear part of a logarithm is finite.
pub proof fn lemma_linear_part_is_finite(
    translation: Vector3,
    omega: Vector3,
    coefficient: Double,
    bound: real,
)
    requires
        vector_within(omega, 4int as real),
        within(coefficient, 1int as real),
        vector_within(translation, bound),
        0int as real <= bound,
        bound <= 1000000000000000000int as real,
    ensures
        ({
            let linear = inverse_left_jacobian(omega, coefficient).image(translation);
            linear.x.finite() && linear.y.finite() && linear.z.finite()
        }),
{
    let (one, four) = (1int as real, 4int as real);
    let turn = hat(omega);
    let half = Double { bits: HALF };
    lemma_value_of_zero(Double { bits: 0 });
    lemma_value_of_one();
    lemma_value_of_half();
    lemma_value_of_negated(omega.x);
    lemma_value_of_negated(omega.y);
    lemma_value_of_negated(omega.z);
    assert(rows_within(turn, four));
    let halved = turn.entry_scaled(half);
    lemma_stretched_within(turn.x, half, four, one);
    lemma_stretched_within(turn.y, half, four, one);
    lemma_stretched_within(turn.z, half, four, one);
    let scaled = turn.entry_scaled(coefficient);
    lemma_stretched_within(turn.x, coefficient, four, one);
    lemma_stretched_within(turn.y, coefficient, four, one);
    lemma_stretched_within(turn.z, coefficient, four, one);
    let nine = 9int as real;
    let identity = Matrix3::identity_matrix();
    assert(rows_within(identity, one));
    lemma_vectors_within(identity.x, halved.x, one, nine);
    lemma_vectors_within(identity.y, halved.y, one, nine);
    lemma_vectors_within(identity.z, halved.z, one, nine);
    let columns = turn.columns();
    lemma_image_within(scaled, columns.x, nine, four);
    lemma_image_within(scaled, columns.y, nine, four);
    lemma_image_within(scaled, columns.z, nine, four);
    let squared = scaled.matrix_product(turn);
    let left = identity.entry_difference(halved);
    let (a, b) = (20int as real, 730int as real);
    lemma_vectors_within(left.x, squared.x, a, b);
    lemma_vectors_within(left.y, squared.y, a, b);
    lemma_vectors_within(left.z, squared.z, a, b);
    let most = 1500int as real;
    lemma_scaled_order(most, 0int as real, bound);
    lemma_scaled_order(most, bound, 1000000000000000000int as real);
    lemma_zero(most);
    lemma_image_within(inverse_left_jacobian(omega, coefficient), translation, most, bound);
}

/// By how much the error of the coefficient counts: what the closed form is off by, or
/// what a turn below 2e-6 leaves of it.
pub open spec fn turn_error(eps: real, share: real) -> real {
    coefficient_error(eps, share) + (8int as real) / (1000000000000int as real)
}

/// How far the translation that comes back may be from the one that was given.
pub open spec fn trip_error(bound: real, eps: real, share: real) -> real {
    (73int as real) * rounding(bound) + (12int as real) * (turn_error(eps, share) * bound)
}

/// What a law on the round trip asks: a rotation by at most 4 rad, with the exact
/// factors of its left Jacobian, a coefficient of at most one, and a sine and cosine
/// that are accurate, unless the angle is so small that they do not count.
pub open spec fn is_trip(
    translation: Vector3,
    omega: Vector3,
    sine: Double,
    cosine: Double,
    angle: real,
    sin: real,
    cos: real,
    first: real,
    second: real,
    exact: real,
    ratio: real,
    bound: real,
    eps: real,
    cos_off: real,
    share: real,
) -> bool {
    let one = 1int as real;
    &&& vector_within(omega, 4int as real)
    &&& vector_within(translation, bound)
    &&& 0int as real <= bound <= 1000000000000000000int as real
    &&& within(log_coefficient(omega.length(), sine, cosine), one)
    &&& describes_rotation(values(omega), angle, sin, cos, first, second, exact)
    &&& angle <= 4int as real
    &&& size(first) <= one && size(second) <= one && size(exact) <= one
    &&& 0int as real <= exact * (angle * angle) <= one
    &&& ratio * angle == sin && size(ratio) <= one
    &&& 0int as real <= eps && 0int as real <= share
    &&& angle > (2int as real) / (1000000int as real) ==> accurate(
        sine,
        cosine,
        angle,
        sin,
        cos,
        eps,
        cos_off,
        share,
    )
}

/// The error of the coefficient times θ², at every angle.
proof fn lemma_turn_error(
    translation: Vector3,
    omega: Vector3,
    sine: Double,
    cosine: Double,
    angle: real,
    sin: real,
    cos: real,
    first: real,
    second: real,
    exact: real,
    ratio: real,
    bound: real,
    eps: real,
    cos_off: real,
    share: real,
)
    requires
        is_trip(
            translation,
            omega,
            sine,
            cosine,
            angle,
            sin,
            cos,
            first,
            second,
            exact,
            ratio,
            bound,
            eps,
            cos_off,
            share,
        ),
    ensures
        size(value(log_coefficient(omega.length(), sine, cosine)) - exact) * (angle * angle)
            <= turn_error(eps, share),
{
    lemma_half_ulp();
    if angle <= (2int as real) / (1000000int as real) {
        let off = size(value(log_coefficient(omega.length(), sine, cosine)) - exact);
        lemma_scaled_order(angle, angle, (2int as real) / (1000000int as real));
        lemma_square(angle);
        lemma_scaled_order(angle * angle, off, 2int as real);
    } else {
        lemma_length_within(omega, 4int as real, angle);
        lemma_small_part(angle);
        lemma_not_small(omega.length());
        lemma_closed_form(omega, sine, cosine, angle, sin, cos, exact, eps, cos_off, share);
    }
}

/// One component of what the error of the coefficient adds.
proof fn lemma_added_part(
    m: real,
    first: real,
    square: real,
    off: real,
    ratio: real,
    across: real,
    twice: real,
    error: real,
    bound: real,
)
    requires
        m == first * square,
        size(first) <= 1int as real,
        size(ratio) <= 1int as real,
        size(off) * square <= error,
        0int as real <= square,
        size(across) <= (8int as real) * bound,
        size(twice) <= (4int as real) * (square * bound),
        0int as real <= bound,
    ensures
        size((-(m * off)) * across + (ratio * off) * twice) <= (12int as real) * (error * bound),
{
    let one = 1int as real;
    let n = size(off) * square;
    lemma_scaled_order(square, 0int as real, size(off));
    lemma_zero(square);
    lemma_commutes(square, size(off));
    lemma_commutes(square, 0int as real);
    // |m·off| ≤ |off|·θ²
    lemma_associates(first, square, off);
    lemma_size_of_product(square, off);
    lemma_bounded_product(first, square * off, one, n);
    lemma_one(n);
    lemma_minus(m * off, across);
    lemma_bounded_product(m * off, across, n, (8int as real) * bound);
    lemma_exchanges(n, 8int as real, bound);
    lemma_scaled_order(bound, n, error);
    // |ratio·off·twice| ≤ 4·|off|·θ²·bound
    lemma_associates(ratio, off, twice);
    lemma_bounded_product(off, twice, size(off), (4int as real) * (square * bound));
    lemma_exchanges(size(off), 4int as real, square * bound);
    lemma_associates(size(off), square, bound);
    lemma_bounded_product(ratio, off * twice, one, (4int as real) * (n * bound));
    lemma_one((4int as real) * (n * bound));
}

/// The exponential undoes the logarithm: the left Jacobian takes the linear part of the
/// logarithm, which is finite, back to the translation, at every angle from zero to
/// beyond a half turn. What is left is rounding, and what the sine and cosine that were
/// handed in are off by.
pub proof fn lemma_logarithm_round_trip(
    translation: Vector3,
    omega: Vector3,
    sine: Double,
    cosine: Double,
    angle: real,
    sin: real,
    cos: real,
    first: real,
    second: real,
    exact: real,
    ratio: real,
    bound: real,
    eps: real,
    cos_off: real,
    share: real,
)
    requires
        is_trip(
            translation,
            omega,
            sine,
            cosine,
            angle,
            sin,
            cos,
            first,
            second,
            exact,
            ratio,
            bound,
            eps,
            cos_off,
            share,
        ),
    ensures
        ({
            let coefficient = log_coefficient(omega.length(), sine, cosine);
            let linear = inverse_left_jacobian(omega, coefficient).image(translation);
            let back = series(values(omega), first, second, values(linear));
            let t = values(translation);
            &&& linear.x.finite() && linear.y.finite() && linear.z.finite()
            &&& bounded(
                (back.0 - t.0, back.1 - t.1, back.2 - t.2),
                trip_error(bound, eps, share),
            )
        }),
{
    let coefficient = log_coefficient(omega.length(), sine, cosine);
    let (w, t) = (values(omega), values(translation));
    let off = value(coefficient) - exact;
    let square = angle * angle;
    let m = (1int as real) - cos;
    lemma_linear_part_is_finite(translation, omega, coefficient, bound);
    lemma_exponential_undoes_the_logarithm(
        translation,
        omega,
        coefficient,
        angle,
        sin,
        cos,
        first,
        second,
        exact,
        ratio,
        bound,
    );
    lemma_turn_error(
        translation,
        omega,
        sine,
        cosine,
        angle,
        sin,
        cos,
        first,
        second,
        exact,
        ratio,
        bound,
        eps,
        cos_off,
        share,
    );
    lemma_zero(first);
    if angle == 0int as real {
        lemma_zero(angle);
    }
    assert(m == first * square);
    let (a, b) = (cross(w, t), cross(w, cross(w, t)));
    let error = turn_error(eps, share);
    lemma_square(angle);
    lemma_cross_bounds(w, t, angle, bound);
    lemma_added_part(m, first, square, off, ratio, a.0, b.0, error, bound);
    lemma_added_part(m, first, square, off, ratio, a.1, b.1, error, bound);
    lemma_added_part(m, first, square, off, ratio, a.2, b.2, error, bound);
}

/// How large ω × t and ω × (ω × t) are.
proof fn lemma_cross_bounds(
    w: (real, real, real),
    t: (real, real, real),
    angle: real,
    bound: real,
)
    requires
        angle >= 0int as real,
        angle <= 4int as real,
        angle * angle == dot(w, w),
        bounded(t, bound),
        0int as real <= bound,
    ensures
        bounded(cross(w, t), (8int as real) * bound),
        bounded(cross(w, cross(w, t)), (4int as real) * ((angle * angle) * bound)),
{
    let square = angle * angle;
    lemma_square(w.0);
    lemma_square(w.1);
    lemma_square(w.2);
    lemma_root_order(w.0, angle);
    lemma_root_order(w.1, angle);
    lemma_root_order(w.2, angle);
    let most = angle * bound;
    lemma_bounded_product(w.0, t.0, angle, bound);
    lemma_bounded_product(w.0, t.1, angle, bound);
    lemma_bounded_product(w.0, t.2, angle, bound);
    lemma_bounded_product(w.1, t.0, angle, bound);
    lemma_bounded_product(w.1, t.1, angle, bound);
    lemma_bounded_product(w.1, t.2, angle, bound);
    lemma_bounded_product(w.2, t.0, angle, bound);
    lemma_bounded_product(w.2, t.1, angle, bound);
    lemma_bounded_product(w.2, t.2, angle, bound);
    lemma_scaled_order(bound, angle, 4int as real);
    lemma_double_cross(w, t);
    let d = dot(w, t);
    assert(size(d) <= (3int as real) * most);
    lemma_square(angle);
    lemma_bounded_product(w.0, d, angle, (3int as real) * most);
    lemma_bounded_product(w.1, d, angle, (3int as real) * most);
    lemma_bounded_product(w.2, d, angle, (3int as real) * most);
    lemma_exchanges(angle, 3int as real, most);
    lemma_associates(angle, angle, bound);
    lemma_bounded_product(t.0, square, bound, square);
    lemma_bounded_product(t.1, square, bound, square);
    lemma_bounded_product(t.2, square, bound, square);
    lemma_commutes(bound, square);
}

/// The round trip is exact to 1e-9 for a translation of at most 5 along each axis, a
/// sine to 1e-14 of itself, and a cosine whose error counts for at most 1e-12.
pub proof fn lemma_round_trip_to_a_billionth(bound: real, eps: real, share: real)
    requires
        0int as real <= bound <= 5int as real,
        0int as real <= eps <= (1int as real) / (100000000000000int as real),
        0int as real <= share <= (1int as real) / (1000000000000int as real),
    ensures
        trip_error(bound, eps, share) <= billionth(),
{
    lemma_half_ulp();
    lemma_least_is_tiny();
    let h = half_ulp();
    assert(h * (9007199254740992int as real) == 1int as real);
    lemma_scaled_order(h, bound, 5int as real);
    let e = turn_error(eps, share);
    lemma_scaled_order(e, bound, 5int as real);
}

} // verus!
