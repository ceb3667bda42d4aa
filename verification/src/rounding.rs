//! Rounding of exact rationals to binary64 magnitudes.
//!
//! A binary64 magnitude is the low 63 bits of the encoding, read as an integer.
//! Finite magnitudes count upwards with the numbers they stand for, in steps of
//! one unit in the last place, so that "round to nearest, ties to even" is a
//! statement about integers: divide by the size of the last place, round the
//! quotient, and add the exponent on top of it.

use vstd::arithmetic::div_mod::{
    lemma_div_denominator, lemma_fundamental_div_mod, lemma_fundamental_div_mod_converse,
};
use vstd::arithmetic::mul::{
    lemma_mul_inequality, lemma_mul_is_commutative, lemma_mul_strict_inequality,
};
use vstd::arithmetic::power2::{
    lemma2_to64, lemma2_to64_rest, lemma_pow2_adds, lemma_pow2_pos, lemma_pow2_strictly_increases,
    lemma_pow2_unfold, pow2,
};
use vstd::bits::{lemma_u128_shr_is_div, lemma_u64_shl_is_mul};
use vstd::prelude::*;

verus! {

/// The smallest magnitude with a nonzero exponent field: 2^52.
pub const TWO_52: u64 = 0x0010_0000_0000_0000;

/// The number of values that a significand can take: 2^53.
pub const TWO_53: u64 = 0x0020_0000_0000_0000;

/// The magnitude of infinity; greater magnitudes are not numbers.
pub const INFINITE: u64 = 0x7FF0_0000_0000_0000;

/// The number of times that `den` must be doubled before `num / den` is less
/// than 2^53: the exponent of the last place of the rounded quotient.
pub open spec fn scale_of(num: nat, den: nat) -> nat
    decreases num - den,
{
    if den == 0 || num < TWO_53 * den {
        0
    } else {
        1 + scale_of(num, 2 * den)
    }
}

/// `num / den` rounded to the nearest integer, a tie to the even one.
pub open spec fn round_half_even(num: nat, den: nat) -> nat {
    let quotient = num / den;
    let remainder = num % den;
    if 2 * remainder > den || (2 * remainder == den && quotient % 2 == 1) {
        quotient + 1
    } else {
        quotient
    }
}

/// The magnitude of a significand in `0..=2^53` whose last place is `2^scale`
/// units; from the largest finite number on, infinity.
pub open spec fn magnitude_of(scale: nat, significand: nat) -> nat {
    let magnitude = scale * TWO_52 as nat + significand;
    if magnitude < INFINITE {
        magnitude
    } else {
        INFINITE as nat
    }
}

/// The magnitude nearest to `num / den` units, a unit being the least positive
/// number (2^-1074); ties go to the even magnitude, and what is too large
/// becomes infinity.
pub open spec fn nearest_magnitude(num: nat, den: nat) -> nat {
    let scale = scale_of(num, den);
    magnitude_of(scale, round_half_even(num, den * pow2(scale)))
}

/// The magnitude nearest to `value * 2^exponent` units.
pub open spec fn nearest_dyadic(value: nat, exponent: int) -> nat {
    if exponent >= 0 {
        nearest_magnitude(value * pow2(exponent as nat), 1)
    } else {
        nearest_magnitude(value, pow2((-exponent) as nat))
    }
}

/// The scale is pinned by the bounds on the quotient.
pub proof fn lemma_scale_of(num: nat, den: nat, scale: nat)
    requires
        den > 0,
        num < TWO_53 * (den * pow2(scale)),
        scale == 0 || num >= TWO_52 * (den * pow2(scale)),
    ensures
        scale_of(num, den) == scale,
    decreases scale,
{
    lemma2_to64();
    if scale > 0 {
        let below = (scale - 1) as nat;
        lemma_pow2_unfold(scale);
        lemma_pow2_pos(below);
        assert(den * pow2(scale) == (2 * den) * pow2(below)) by (nonlinear_arith)
            requires
                pow2(scale) == 2 * pow2(below),
        ;
        assert(den * pow2(scale) >= 2 * den) by (nonlinear_arith)
            requires
                pow2(scale) == 2 * pow2(below),
                pow2(below) >= 1,
        ;
        lemma_scale_of(num, 2 * den, below);
    } else {
        assert(den * pow2(scale) == den) by (nonlinear_arith)
            requires
                pow2(scale) == 1,
        ;
    }
}

/// A quotient and remainder at the right scale give the nearest magnitude.
pub proof fn lemma_nearest_magnitude(num: nat, den: nat, scale: nat, quotient: nat, remainder: nat)
    requires
        den > 0,
        num == quotient * (den * pow2(scale)) + remainder,
        remainder < den * pow2(scale),
        quotient < TWO_53,
        scale == 0 || quotient >= TWO_52,
    ensures
        nearest_magnitude(num, den) == magnitude_of(
            scale,
            round_half_even(num, den * pow2(scale)),
        ),
        num / (den * pow2(scale)) == quotient,
        num % (den * pow2(scale)) == remainder,
{
    let place = den * pow2(scale);
    assert(num < TWO_53 * place) by (nonlinear_arith)
        requires
            num == quotient * place + remainder,
            remainder < place,
            quotient + 1 <= TWO_53,
    ;
    assert(scale == 0 || num >= TWO_52 * place) by (nonlinear_arith)
        requires
            num == quotient * place + remainder,
            scale == 0 || quotient >= TWO_52,
            remainder >= 0,
            place >= 0,
    ;
    lemma_scale_of(num, den, scale);
    lemma_mul_is_commutative(quotient as int, place as int);
    lemma_fundamental_div_mod_converse(num as int, place as int, quotient as int, remainder as int);
}

/// Dropping the low `shift` bits of a value puts its last place at
/// `2^(exponent + shift)`.
pub proof fn lemma_dyadic_shift_right(
    value: nat,
    exponent: int,
    shift: nat,
    quotient: nat,
    remainder: nat,
)
    requires
        value == quotient * pow2(shift) + remainder,
        remainder < pow2(shift),
        exponent + shift >= 0,
        quotient < TWO_53,
        exponent + shift == 0 || quotient >= TWO_52,
    ensures
        value / pow2(shift) == quotient,
        value % pow2(shift) == remainder,
        nearest_dyadic(value, exponent) == magnitude_of(
            (exponent + shift) as nat,
            round_half_even(value, pow2(shift)),
        ),
{
    let scale = (exponent + shift) as nat;
    lemma_pow2_pos(shift);
    lemma_mul_is_commutative(quotient as int, pow2(shift) as int);
    lemma_fundamental_div_mod_converse(
        value as int,
        pow2(shift) as int,
        quotient as int,
        remainder as int,
    );
    if exponent >= 0 {
        let unit = pow2(exponent as nat);
        let half = pow2(shift);
        lemma_pow2_pos(exponent as nat);
        lemma_pow2_adds(exponent as nat, shift);
        let place = 1 * pow2(scale);
        assert(place == unit * half);
        assert(value * unit == quotient * place + remainder * unit) by (nonlinear_arith)
            requires
                value == quotient * half + remainder,
                place == unit * half,
        ;
        assert(remainder * unit < place) by (nonlinear_arith)
            requires
                remainder < half,
                place == unit * half,
                unit > 0,
        ;
        lemma_nearest_magnitude(value * unit, 1, scale, quotient, remainder * unit);
        assert(2 * (remainder * unit) > place <==> 2 * remainder > half) by (nonlinear_arith)
            requires
                place == unit * half,
                unit > 0,
        ;
        assert(2 * (remainder * unit) == place <==> 2 * remainder == half) by (nonlinear_arith)
            requires
                place == unit * half,
                unit > 0,
        ;
    } else {
        let den = pow2((-exponent) as nat);
        lemma_pow2_pos((-exponent) as nat);
        lemma_pow2_adds((-exponent) as nat, scale);
        assert(((-exponent) as nat) + scale == shift);
        lemma_nearest_magnitude(value, den, scale, quotient, remainder);
    }
}

/// A value with room in its significand is moved up exactly.
pub proof fn lemma_dyadic_shift_left(value: nat, exponent: nat, shift: nat)
    requires
        shift <= exponent,
        value * pow2(shift) < TWO_53,
        exponent == shift || value * pow2(shift) >= TWO_52,
    ensures
        nearest_dyadic(value, exponent as int) == magnitude_of(
            (exponent - shift) as nat,
            value * pow2(shift),
        ),
{
    let scale = (exponent - shift) as nat;
    lemma_pow2_adds(shift, scale);
    lemma_pow2_pos(scale);
    let quotient = value * pow2(shift);
    let place = 1 * pow2(scale);
    assert(value * pow2(exponent) == quotient * place) by (nonlinear_arith)
        requires
            pow2(exponent) == pow2(shift) * place,
            quotient == value * pow2(shift),
    ;
    lemma_nearest_magnitude(value * pow2(exponent), 1, scale, quotient, 0);
}

/// 2^exponent.
pub fn power_of_two(exponent: u32) -> (power: u128)
    requires
        exponent < 128,
    ensures
        power == pow2(exponent as nat),
{
    proof {
        lemma2_to64();
        lemma2_to64_rest();
    }
    if exponent < 64 {
        proof {
            lemma_u64_shl_is_mul(1, exponent as u64);
        }
        (1u64 << (exponent as u64)) as u128
    } else {
        let high: u64 = exponent as u64 - 64;
        proof {
            lemma_u64_shl_is_mul(1, high);
            lemma_pow2_adds(high as nat, 64);
            assert(pow2(exponent as nat) == pow2(high as nat) * 0x1_0000_0000_0000_0000);
            assert(pow2(high as nat) <= 0x8000_0000_0000_0000) by {
                if high < 63 {
                    lemma_pow2_strictly_increases(high as nat, 63);
                }
            }
        }
        ((1u64 << high) as u128) * 0x1_0000_0000_0000_0000u128
    }
}

/// The number of bits of a value: the least `length` with `value < 2^length`.
pub fn bit_length(value: u128) -> (length: u32)
    ensures
        length <= 128,
        value < pow2(length as nat),
        length > 0 ==> value >= pow2((length - 1) as nat),
        value > 0 ==> length > 0,
{
    let mut rest: u128 = value;
    let mut length: u32 = 0;
    let mut step: u32 = 64;
    proof {
        lemma2_to64();
        lemma2_to64_rest();
    }
    assert(value < pow2(2 * 64)) by {
        lemma_pow2_adds(64, 64);
    }
    while step > 0
        invariant
            step == 64 || step == 32 || step == 16 || step == 8 || step == 4 || step == 2 || step
                == 1 || step == 0,
            length + (if step == 0 { 1nat } else { 2 * step as nat }) <= 128,
            rest == value as nat / pow2(length as nat),
            step > 0 ==> rest < pow2(2 * step as nat),
            step == 0 ==> rest < 2,
            length > 0 ==> rest > 0,
        decreases step,
    {
        proof {
            lemma2_to64();
            lemma2_to64_rest();
            lemma_pow2_adds(step as nat, step as nat);
            assert(2 * step as nat == step as nat + step as nat);
            lemma_pow2_pos(step as nat);
            lemma_pow2_pos(length as nat);
            lemma_pow2_adds(length as nat, step as nat);
            lemma_u128_shr_is_div(rest, step as u128);
            lemma_div_denominator(value as int, pow2(length as nat) as int, pow2(step as nat) as int);
        }
        let high: u128 = rest >> (step as u128);
        proof {
            lemma_fundamental_div_mod(rest as int, pow2(step as nat) as int);
            assert(high < pow2(step as nat)) by (nonlinear_arith)
                requires
                    rest < pow2(step as nat) * pow2(step as nat),
                    rest == pow2(step as nat) * high + rest as int % pow2(step as nat) as int,
                    rest as int % pow2(step as nat) as int >= 0,
            ;
            assert(high == 0 ==> rest < pow2(step as nat)) by {
                lemma_mul_is_commutative(high as int, pow2(step as nat) as int);
            }
        }
        if high > 0 {
            rest = high;
            length = length + step;
        }
        step = step / 2;
    }
    proof {
        lemma2_to64();
        lemma_pow2_pos(length as nat);
        lemma_fundamental_div_mod(value as int, pow2(length as nat) as int);
        lemma_pow2_unfold((length + 1) as nat);
        assert(pow2(length as nat) * 1 == pow2(length as nat) && pow2(length as nat) * 0 == 0)
            by (nonlinear_arith);
    }
    length + rest as u32
}

/// What the scale says of the quotient.
pub proof fn lemma_scale_bounds(num: nat, den: nat)
    requires
        den > 0,
    ensures
        num < TWO_53 * (den * pow2(scale_of(num, den))),
        scale_of(num, den) == 0 || num >= TWO_52 * (den * pow2(scale_of(num, den))),
    decreases num - den,
{
    lemma2_to64();
    let scale = scale_of(num, den);
    if num < TWO_53 * den {
        assert(den * pow2(0) == den) by (nonlinear_arith)
            requires
                pow2(0) == 1,
        ;
    } else {
        lemma_scale_bounds(num, 2 * den);
        let below = scale_of(num, 2 * den);
        assert(scale == below + 1);
        lemma_pow2_unfold(scale);
        assert(den * pow2(scale) == (2 * den) * pow2(below)) by (nonlinear_arith)
            requires
                pow2(scale) == 2 * pow2(below),
        ;
        if below == 0 {
            assert((2 * den) * pow2(below) == 2 * den) by (nonlinear_arith)
                requires
                    pow2(below) == 1,
            ;
        }
    }
}

/// A ratio rounds the same after both sides are multiplied.
proof fn lemma_nearest_scaling(num: nat, den: nat, factor: nat)
    requires
        den > 0,
        factor > 0,
    ensures
        nearest_magnitude(num * factor, den * factor) == nearest_magnitude(num, den),
{
    let scale = scale_of(num, den);
    let place = den * pow2(scale);
    lemma_pow2_pos(scale);
    lemma_scale_bounds(num, den);
    assert(place > 0) by (nonlinear_arith)
        requires
            place == den * pow2(scale),
            den > 0,
            pow2(scale) > 0,
    ;
    let quotient = num / place;
    let remainder = num % place;
    lemma_fundamental_div_mod(num as int, place as int);
    assert(quotient < TWO_53) by (nonlinear_arith)
        requires
            num == place * quotient + remainder,
            remainder >= 0,
            num < TWO_53 * place,
            place > 0,
    ;
    assert(scale == 0 || quotient >= TWO_52) by (nonlinear_arith)
        requires
            num == place * quotient + remainder,
            remainder < place,
            scale == 0 || num >= TWO_52 * place,
            place > 0,
    ;
    assert((den * factor) * pow2(scale) == place * factor) by (nonlinear_arith)
        requires
            place == den * pow2(scale),
    ;
    assert(num * factor == quotient * (place * factor) + remainder * factor) by (nonlinear_arith)
        requires
            num == place * quotient + remainder,
    ;
    assert(remainder * factor < place * factor) by (nonlinear_arith)
        requires
            remainder < place,
            factor > 0,
    ;
    assert(den * factor > 0) by (nonlinear_arith)
        requires
            den > 0,
            factor > 0,
    ;
    lemma_nearest_magnitude(num * factor, den * factor, scale, quotient, remainder * factor);
    assert(2 * (remainder * factor) > place * factor <==> 2 * remainder > place)
        by (nonlinear_arith)
        requires
            factor > 0,
    ;
    assert(2 * (remainder * factor) == place * factor <==> 2 * remainder == place)
        by (nonlinear_arith)
        requires
            factor > 0,
    ;
}

/// Equal ratios round to the same magnitude.
pub proof fn lemma_nearest_ratio(num: nat, den: nat, other_num: nat, other_den: nat)
    requires
        den > 0,
        other_den > 0,
        num * other_den == other_num * den,
    ensures
        nearest_magnitude(num, den) == nearest_magnitude(other_num, other_den),
{
    lemma_nearest_scaling(num, den, other_den);
    lemma_nearest_scaling(other_num, other_den, den);
    lemma_mul_is_commutative(den as int, other_den as int);
}

/// Rounding keeps the order of ratios with one denominator.
proof fn lemma_nearest_keeps_order(num: nat, other: nat, den: nat)
    requires
        den > 0,
        num <= other,
    ensures
        nearest_magnitude(num, den) <= nearest_magnitude(other, den),
{
    let s = scale_of(num, den);
    let t = scale_of(other, den);
    lemma_scale_bounds(num, den);
    lemma_scale_bounds(other, den);
    let p = den * pow2(s);
    let q = den * pow2(t);
    lemma_pow2_pos(s);
    lemma_pow2_pos(t);
    assert(p > 0 && q > 0) by (nonlinear_arith)
        requires
            p == den * pow2(s),
            q == den * pow2(t),
            den > 0,
            pow2(s) > 0,
            pow2(t) > 0,
    ;
    lemma_fundamental_div_mod(num as int, p as int);
    lemma_fundamental_div_mod(other as int, q as int);
    let (a, x) = (num / p, num % p);
    let (b, y) = (other / q, other % q);
    if s > t {
        lemma_pow2_unfold(s);
        if t < s - 1 {
            lemma_pow2_strictly_increases(t, (s - 1) as nat);
        }
        assert(TWO_52 * p >= TWO_53 * q) by (nonlinear_arith)
            requires
                p == den * pow2(s),
                q == den * pow2(t),
                pow2(s) >= 2 * pow2(t),
        ;
        assert(false);
    } else if s < t {
        assert(a < TWO_53) by (nonlinear_arith)
            requires
                num == p * a + x,
                x >= 0,
                num < TWO_53 * p,
                p > 0,
        ;
        assert(b >= TWO_52) by (nonlinear_arith)
            requires
                other == q * b + y,
                y < q,
                other >= TWO_52 * q,
                q > 0,
        ;
    } else {
        assert(a <= b) by (nonlinear_arith)
            requires
                num == p * a + x,
                other == p * b + y,
                num <= other,
                x >= 0,
                y < p,
                p > 0,
        ;
    }
}

/// Rounding keeps the order of ratios.
pub proof fn lemma_nearest_monotone(num: nat, den: nat, other_num: nat, other_den: nat)
    requires
        den > 0,
        other_den > 0,
        num * other_den <= other_num * den,
    ensures
        nearest_magnitude(num, den) <= nearest_magnitude(other_num, other_den),
{
    lemma_nearest_scaling(num, den, other_den);
    lemma_nearest_scaling(other_num, other_den, den);
    lemma_mul_is_commutative(den as int, other_den as int);
    assert(den * other_den > 0) by (nonlinear_arith)
        requires
            den > 0,
            other_den > 0,
    ;
    lemma_nearest_keeps_order(num * other_den, other_num * den, den * other_den);
}

/// 2^exponent where the exponent is positive, otherwise 1.
pub open spec fn raised(exponent: int) -> nat {
    if exponent >= 0 {
        pow2(exponent as nat)
    } else {
        1
    }
}

/// The ratio that a dyadic value stands for.
pub proof fn lemma_nearest_dyadic(value: nat, exponent: int)
    ensures
        raised(exponent) > 0,
        raised(-exponent) > 0,
        nearest_dyadic(value, exponent) == nearest_magnitude(
            value * raised(exponent),
            raised(-exponent),
        ),
{
    lemma2_to64();
    if exponent >= 0 {
        lemma_pow2_pos(exponent as nat);
        if exponent == 0 {
            assert(raised(-exponent) == 1);
        }
    } else {
        lemma_pow2_pos((-exponent) as nat);
        assert(value * 1 == value);
    }
}

/// The number of bits of a nonzero value.
proof fn lemma_bit_length(value: nat) -> (length: nat)
    requires
        value > 0,
    ensures
        length > 0,
        pow2((length - 1) as nat) <= value < pow2(length),
    decreases value,
{
    lemma2_to64();
    if value == 1 {
        1
    } else {
        let length = lemma_bit_length(value / 2);
        lemma_pow2_unfold(length);
        lemma_pow2_unfold(length + 1);
        length + 1
    }
}

/// Every ratio strictly between two consecutive multiples of a small enough
/// power of two rounds as the point halfway between them does. So all that
/// lies below the last bit of a long quotient can be folded into one bit.
pub proof fn lemma_nearest_sticky(num: nat, den: nat, value: nat, exponent: int)
    requires
        den > 0,
        value >= 2 * TWO_53,
        value * (raised(exponent) * den) < num * raised(-exponent),
        num * raised(-exponent) < (value + 1) * (raised(exponent) * den),
    ensures
        nearest_magnitude(num, den) == nearest_dyadic(2 * value + 1, exponent - 1),
{
    lemma2_to64();
    lemma2_to64_rest();
    let length = lemma_bit_length(value);
    assert(length >= 55) by {
        if length < 54 {
            lemma_pow2_strictly_increases(length, 54);
        }
    }
    let scale: nat = if length + exponent > 53 {
        (length + exponent - 53) as nat
    } else {
        0
    };
    let shift = (scale - exponent) as nat;
    assert(shift >= 2);
    let half = pow2((shift - 1) as nat);
    let width = pow2(shift);
    lemma_pow2_pos((shift - 1) as nat);
    lemma_pow2_unfold(shift);
    lemma_pow2_unfold(shift + 1);
    let quotient = value / width;
    let low = value % width;
    lemma_fundamental_div_mod(value as int, width as int);
    lemma_significand_fits(value, length, shift, quotient);

    // The halfway point.
    assert(2 * value + 1 == quotient * pow2(shift + 1) + (2 * low + 1)) by (nonlinear_arith)
        requires
            value == width * quotient + low,
            pow2(shift + 1) == 2 * width,
    ;
    lemma_dyadic_shift_right(2 * value + 1, exponent - 1, shift + 1, quotient, 2 * low + 1);

    // The ratio itself.
    let up = raised(exponent);
    let down = raised(-exponent);
    let place = den * pow2(scale);
    lemma_nearest_dyadic(value, exponent);
    lemma_pow2_pos(scale);
    assert(pow2(scale) * down == width * up) by {
        if exponent >= 0 {
            lemma_pow2_adds(shift, exponent as nat);
            if exponent == 0 {
                assert(down == 1);
            }
        } else {
            lemma_pow2_adds(scale, (-exponent) as nat);
        }
    }
    assert(place * down == width * (up * den)) by (nonlinear_arith)
        requires
            place == den * pow2(scale),
            pow2(scale) * down == width * up,
    ;
    assert(num >= quotient * place) by (nonlinear_arith)
        requires
            value == width * quotient + low,
            low >= 0,
            value * (up * den) < num * down,
            place * down == width * (up * den),
            up * den >= 0,
            down > 0,
    ;
    let remainder = (num - quotient * place) as nat;
    assert(remainder * down == num * down - quotient * (width * (up * den))) by (nonlinear_arith)
        requires
            remainder == num - quotient * place,
            place * down == width * (up * den),
    ;
    assert(value * (up * den) == quotient * (width * (up * den)) + low * (up * den))
        by (nonlinear_arith)
        requires
            value == width * quotient + low,
    ;
    assert((value + 1) * (up * den) == quotient * (width * (up * den)) + (low + 1) * (up * den))
        by (nonlinear_arith)
        requires
            value == width * quotient + low,
    ;
    assert(low * (up * den) < remainder * down < (low + 1) * (up * den));
    assert(remainder < place) by (nonlinear_arith)
        requires
            remainder * down < (low + 1) * (up * den),
            low + 1 <= width,
            place * down == width * (up * den),
            up * den >= 0,
            down > 0,
    ;
    assert(num == quotient * place + remainder);
    lemma_nearest_magnitude(num, den, scale, quotient, remainder);
    assert(2 * remainder > place <==> low >= half) by (nonlinear_arith)
        requires
            low * (up * den) < remainder * down,
            remainder * down < (low + 1) * (up * den),
            place * down == width * (up * den),
            width == 2 * half,
            up * den >= 0,
            down > 0,
    ;
    assert(2 * remainder != place) by (nonlinear_arith)
        requires
            low * (up * den) < remainder * down,
            remainder * down < (low + 1) * (up * den),
            place * down == width * (up * den),
            width == 2 * half,
            up * den >= 0,
            down > 0,
    ;
}

/// Zero rounds to zero.
pub proof fn lemma_nearest_zero(exponent: int)
    ensures
        nearest_dyadic(0, exponent) == 0,
{
    if exponent >= 0 {
        assert(0 * pow2(exponent as nat) == 0);
        lemma_dyadic_shift_left(0, exponent as nat, exponent as nat);
    } else {
        lemma_pow2_pos((-exponent) as nat);
        assert(0 * pow2((-exponent) as nat) == 0);
        lemma_dyadic_shift_right(0, exponent, (-exponent) as nat, 0, 0);
    }
}

/// A value of fewer than 53 bits fits the significand after the move up that
/// its length calls for.
proof fn lemma_significand_room(value: nat, length: nat, exponent: nat, room: nat)
    requires
        value < pow2(length),
        length > 0 ==> value >= pow2((length - 1) as nat),
        room <= exponent,
        exponent == room ==> length + room <= 53,
        exponent > room ==> length + room == 53 && length > 0,
    ensures
        value * pow2(room) < TWO_53,
        exponent == room || value * pow2(room) >= TWO_52,
{
    lemma2_to64();
    lemma2_to64_rest();
    lemma_pow2_pos(room);
    lemma_pow2_adds(length, room);
    lemma_mul_strict_inequality(value as int, pow2(length) as int, pow2(room) as int);
    if length + room < 53 {
        lemma_pow2_strictly_increases(length + room, 53);
    }
    if exponent > room {
        lemma_pow2_adds((length - 1) as nat, room);
        lemma_mul_inequality(pow2((length - 1) as nat) as int, value as int, pow2(room) as int);
    }
}

/// What is left of a value above its low `shift` bits fits the significand.
proof fn lemma_significand_fits(value: nat, length: nat, shift: nat, quotient: nat)
    requires
        value < pow2(length),
        length > 0 ==> value >= pow2((length - 1) as nat),
        quotient == value / pow2(shift),
        length <= 53 + shift,
    ensures
        quotient < TWO_53,
        length == 53 + shift ==> quotient >= TWO_52,
{
    lemma2_to64();
    lemma2_to64_rest();
    lemma_pow2_pos(shift);
    lemma_pow2_adds(53, shift);
    lemma_pow2_adds(52, shift);
    if length < 53 + shift {
        lemma_pow2_strictly_increases(length, 53 + shift);
    }
    lemma_fundamental_div_mod(value as int, pow2(shift) as int);
    let place = pow2(shift);
    let remainder = value % place;
    assert(quotient < TWO_53) by (nonlinear_arith)
        requires
            value == place * quotient + remainder,
            remainder >= 0,
            value < TWO_53 * place,
            place > 0,
    ;
    if length == 53 + shift {
        assert(quotient >= TWO_52) by (nonlinear_arith)
            requires
                value == place * quotient + remainder,
                remainder < place,
                value >= TWO_52 * place,
                place > 0,
        ;
    }
}

/// The magnitude of a significand at a scale.
fn encode(scale: u32, significand: u64) -> (magnitude: u64)
    requires
        significand <= TWO_53,
    ensures
        magnitude == magnitude_of(scale as nat, significand as nat),
{
    if scale >= 0x7FF {
        INFINITE
    } else {
        let magnitude: u64 = scale as u64 * TWO_52 + significand;
        if magnitude < INFINITE {
            magnitude
        } else {
            INFINITE
        }
    }
}

/// Rounds `value * 2^exponent` units to the nearest magnitude.
pub fn round_dyadic(value: u128, exponent: i32) -> (magnitude: u64)
    requires
        value < 0x8000_0000_0000_0000_0000_0000_0000_0000,
        -0x10000 <= exponent <= 0x10000,
    ensures
        magnitude == nearest_dyadic(value as nat, exponent as int),
{
    if value == 0 {
        proof {
            lemma_nearest_zero(exponent as int);
        }
        return 0;
    }
    let length: i32 = bit_length(value) as i32;
    let scale: i32 = if length + exponent > 53 {
        length + exponent - 53
    } else {
        0
    };
    let shift: i32 = scale - exponent;
    proof {
        lemma2_to64();
        lemma2_to64_rest();
    }
    if shift <= 0 {
        let left: u32 = (-shift) as u32;
        let ghost room = left as nat;
        proof {
            lemma_significand_room(value as nat, length as nat, exponent as nat, room);
            lemma_dyadic_shift_left(value as nat, exponent as nat, room);
        }
        let significand: u64 = (value * power_of_two(left)) as u64;
        encode(scale as u32, significand)
    } else if shift >= 128 {
        proof {
            assert(scale == 0);
            lemma_pow2_adds(64, 64);
            if shift > 128 {
                lemma_pow2_strictly_increases(128, shift as nat);
            }
            lemma_dyadic_shift_right(value as nat, exponent as int, shift as nat, 0, value as nat);
        }
        0
    } else {
        let place: u128 = power_of_two(shift as u32);
        proof {
            lemma_pow2_pos(shift as nat);
            lemma_u128_shr_is_div(value, shift as u128);
            lemma_fundamental_div_mod(value as int, place as int);
        }
        let quotient: u128 = value >> (shift as u128);
        proof {
            lemma_mul_is_commutative(place as int, quotient as int);
            lemma_significand_fits(value as nat, length as nat, shift as nat, quotient as nat);
        }
        let remainder: u128 = value - quotient * place;
        proof {
            lemma_dyadic_shift_right(
                value as nat,
                exponent as int,
                shift as nat,
                quotient as nat,
                remainder as nat,
            );
        }
        let whole: u64 = quotient as u64;
        // Twice the remainder is compared with the place without doubling it.
        let rest: u128 = place - remainder;
        let significand: u64 = if remainder > rest || (remainder == rest && whole % 2 == 1) {
            whole + 1
        } else {
            whole
        };
        encode(scale as u32, significand)
    }
}

} // verus!
