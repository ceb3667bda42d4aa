//! Addition, multiplication, division and square root of binary64 numbers.

use crate::double::{
    exponent, integer_root, lemma_magnitude_parts, lemma_nearest_of_units, lemma_order_of_values,
    lemma_units_increase, signed, significand, units, Double, HALF, NOT_A_NUMBER, ONE, SIGN,
    UNIT_EXPONENT,
};
use crate::rounding::{
    bit_length, lemma_nearest_dyadic, lemma_nearest_monotone, lemma_nearest_ratio,
    lemma_nearest_sticky, nearest_dyadic, nearest_magnitude, power_of_two, raised, round_dyadic,
    INFINITE, TWO_52, TWO_53,
};
use vstd::arithmetic::mul::{
    lemma_mul_inequality, lemma_mul_is_commutative, lemma_mul_is_distributive_add,
    lemma_mul_is_distributive_sub, lemma_mul_strict_inequality,
};
use vstd::arithmetic::power2::{
    lemma2_to64, lemma2_to64_rest, lemma_pow2_adds, lemma_pow2_pos, lemma_pow2_strictly_increases,
    lemma_pow2_unfold, pow2,
};
use vstd::prelude::*;

verus! {

/// The significand and the exponent of a finite magnitude.
fn split(magnitude: u64) -> (parts: (u64, i32))
    requires
        magnitude < INFINITE,
    ensures
        parts.0 == significand(magnitude as nat),
        parts.1 == exponent(magnitude as nat),
        parts.0 < TWO_53,
        0 <= parts.1 <= 2045,
        parts.1 > 0 ==> parts.0 >= TWO_52,
        parts.0 == 0 <==> magnitude == 0,
{
    proof {
        lemma_magnitude_parts(magnitude as nat);
    }
    if magnitude < TWO_52 {
        (magnitude, 0)
    } else {
        (TWO_52 + magnitude % TWO_52, (magnitude / TWO_52) as i32 - 1)
    }
}

/// The number with a sign and a magnitude.
fn join(negative: bool, magnitude: u64) -> (result: Double)
    requires
        magnitude <= INFINITE,
    ensures
        result == signed(negative, magnitude as nat),
{
    if negative {
        Double { bits: SIGN + magnitude }
    } else {
        Double { bits: magnitude }
    }
}

/// The sum or the difference of two magnitudes of similar size.
proof fn lemma_aligned(big: nat, small: nat, shifted: nat)
    requires
        small <= big < INFINITE,
        exponent(small) <= exponent(big),
        shifted == significand(big) * pow2((exponent(big) - exponent(small)) as nat),
    ensures
        shifted >= significand(small),
        units(big) + units(small) == (shifted + significand(small)) * pow2(exponent(small)),
        units(big) - units(small) == (shifted - significand(small)) * pow2(exponent(small)),
{
    let gap = (exponent(big) - exponent(small)) as nat;
    let place = pow2(exponent(small));
    lemma_pow2_pos(exponent(small));
    lemma_pow2_adds(gap, exponent(small));
    assert(units(big) == shifted * place) by (nonlinear_arith)
        requires
            units(big) == significand(big) * pow2(exponent(big)),
            pow2(exponent(big)) == pow2(gap) * place,
            shifted == significand(big) * pow2(gap),
    ;
    if small < big {
        lemma_units_increase(small, big);
    }
    let low = significand(small);
    assert(shifted >= low) by (nonlinear_arith)
        requires
            shifted * place >= low * place,
            place > 0,
    ;
    lemma_mul_is_commutative(shifted as int, place as int);
    lemma_mul_is_commutative(low as int, place as int);
    lemma_mul_is_distributive_add(place as int, shifted as int, low as int);
    lemma_mul_is_distributive_sub(place as int, shifted as int, low as int);
    lemma_mul_is_commutative((shifted + low) as int, place as int);
    lemma_mul_is_commutative(shifted - low, place as int);
}

/// The sum or the difference of a magnitude and a much smaller one.
proof fn lemma_far(big: nat, small: nat)
    requires
        0 < small <= big < INFINITE,
        exponent(small) + 60 < exponent(big),
    ensures
        nearest_magnitude(units(big) + units(small), 1) == nearest_dyadic(
            512 * significand(big) + 1,
            exponent(big) - 9,
        ),
        units(big) > units(small),
        nearest_magnitude((units(big) - units(small)) as nat, 1) == nearest_dyadic(
            (512 * significand(big) - 1) as nat,
            exponent(big) - 9,
        ),
{
    lemma2_to64();
    lemma2_to64_rest();
    lemma_magnitude_parts(big);
    lemma_magnitude_parts(small);
    let top = significand(big);
    let at = (exponent(big) - 8) as nat;
    let place = pow2(at);
    lemma_pow2_pos(at);
    lemma_pow2_adds(at, 8);
    lemma_pow2_pos(exponent(small));
    assert(units(big) == (256 * top) * place) by (nonlinear_arith)
        requires
            units(big) == top * pow2(exponent(big)),
            pow2(exponent(big)) == place * 256,
    ;
    lemma_pow2_adds(exponent(small), 53);
    if exponent(small) + 53 < at {
        lemma_pow2_strictly_increases(exponent(small) + 53, at);
    }
    let low = units(small);
    assert(0 < low < place) by (nonlinear_arith)
        requires
            low == significand(small) * pow2(exponent(small)),
            0 < significand(small) < TWO_53,
            pow2(exponent(small)) > 0,
            pow2(exponent(small)) * TWO_53 <= place,
    ;
    let above = 256 * top;
    let below = (256 * top - 1) as nat;
    assert(raised(at as int) == place);
    assert(raised(-(at as int)) == 1);
    assert(above * (place * 1) == units(big));
    assert((above + 1) * (place * 1) == units(big) + place) by (nonlinear_arith)
        requires
            units(big) == above * place,
    ;
    assert(below * (place * 1) == units(big) - place) by (nonlinear_arith)
        requires
            units(big) == above * place,
            below == above - 1,
    ;
    assert((units(big) + low) * 1 == units(big) + low);
    lemma_nearest_sticky(units(big) + low, 1, above, at as int);
    lemma_nearest_sticky((units(big) - low) as nat, 1, below, at as int);
}

/// Adds the smaller magnitude to the larger one, or takes it away.
fn combine(big: u64, small: u64, subtract: bool) -> (magnitude: u64)
    requires
        small <= big < INFINITE,
    ensures
        units(big as nat) >= units(small as nat),
        subtract ==> magnitude == nearest_magnitude(
            (units(big as nat) - units(small as nat)) as nat,
            1,
        ),
        !subtract ==> magnitude == nearest_magnitude(
            units(big as nat) + units(small as nat),
            1,
        ),
{
    let (top, high): (u64, i32) = split(big);
    let (low, base): (u64, i32) = split(small);
    proof {
        lemma2_to64();
        lemma2_to64_rest();
        lemma_magnitude_parts(big as nat);
        lemma_magnitude_parts(small as nat);
        if small < big {
            lemma_units_increase(small as nat, big as nat);
        }
    }
    if small == 0 {
        proof {
            lemma_nearest_of_units(big as nat);
            assert(units(0) == 0) by (nonlinear_arith)
                requires
                    units(0) == significand(0) * pow2(exponent(0)),
                    significand(0) == 0,
            ;
        }
        big
    } else if high - base <= 60 {
        let gap: u32 = (high - base) as u32;
        let scale: u128 = power_of_two(gap);
        proof {
            if gap < 60 {
                lemma_pow2_strictly_increases(gap as nat, 60);
            }
            assert(top * scale < 0x2_0000_0000_0000_0000_0000_0000_0000) by (nonlinear_arith)
                requires
                    top < TWO_53,
                    scale <= 0x1000_0000_0000_0000,
            ;
        }
        let shifted: u128 = top as u128 * scale;
        proof {
            lemma_aligned(big as nat, small as nat, shifted as nat);
        }
        if subtract {
            round_dyadic(shifted - low as u128, base)
        } else {
            round_dyadic(shifted + low as u128, base)
        }
    } else {
        proof {
            lemma_far(big as nat, small as nat);
        }
        if subtract {
            round_dyadic(512 * top as u128 - 1, high - 9)
        } else {
            round_dyadic(512 * top as u128 + 1, high - 9)
        }
    }
}

impl Double {
    /// `self + other`.
    pub fn plus(self, other: Double) -> (result: Double)
        ensures
            result == self.sum(other),
    {
        proof {
            reveal(Double::sum);
        }
        let left: u64 = self.abs().bits;
        let right: u64 = other.abs().bits;
        let differ: bool = (self.bits >= SIGN) != (other.bits >= SIGN);
        if left > INFINITE || right > INFINITE || (left == INFINITE && right == INFINITE
            && differ) {
            Double { bits: NOT_A_NUMBER }
        } else if left == INFINITE {
            self
        } else if right == INFINITE {
            other
        } else {
            let (big, small): (u64, u64) = if left >= right {
                (left, right)
            } else {
                (right, left)
            };
            let magnitude: u64 = combine(big, small, differ);
            proof {
                lemma_sum_sign(big as nat, small as nat);
            }
            if differ && left == right {
                Double { bits: 0 }
            } else if left >= right {
                join(self.bits >= SIGN, magnitude)
            } else {
                join(other.bits >= SIGN, magnitude)
            }
        }
    }

    /// `self - other`.
    pub fn minus(self, other: Double) -> (result: Double)
        ensures
            result == self.difference(other),
    {
        self.plus(other.neg())
    }
}

/// The product of two finite magnitudes from their parts.
proof fn lemma_product(a: nat, b: nat)
    requires
        a < INFINITE,
        b < INFINITE,
    ensures
        nearest_magnitude(units(a) * units(b), pow2(UNIT_EXPONENT as nat)) == nearest_dyadic(
            significand(a) * significand(b),
            exponent(a) + exponent(b) - UNIT_EXPONENT,
        ),
{
    let value = significand(a) * significand(b);
    let at = exponent(a) + exponent(b) - UNIT_EXPONENT;
    let one = pow2(UNIT_EXPONENT as nat);
    let place = pow2(exponent(a) + exponent(b));
    lemma_nearest_dyadic(value, at);
    lemma_pow2_pos(UNIT_EXPONENT as nat);
    lemma_pow2_adds(exponent(a), exponent(b));
    assert(units(a) * units(b) == value * place) by (nonlinear_arith)
        requires
            units(a) == significand(a) * pow2(exponent(a)),
            units(b) == significand(b) * pow2(exponent(b)),
            value == significand(a) * significand(b),
            place == pow2(exponent(a)) * pow2(exponent(b)),
    ;
    lemma_raised(exponent(a) + exponent(b), UNIT_EXPONENT as nat);
    assert((units(a) * units(b)) * raised(-at) == (value * raised(at)) * one) by (nonlinear_arith)
        requires
            units(a) * units(b) == value * place,
            place * raised(-at) == raised(at) * one,
    ;
    lemma_nearest_ratio(units(a) * units(b), one, value * raised(at), raised(-at));
}

/// Powers of two across a difference of exponents.
proof fn lemma_raised(top: nat, bottom: nat)
    ensures
        pow2(top) * raised(bottom - top) == raised(top - bottom) * pow2(bottom),
{
    if top >= bottom {
        lemma_pow2_adds((top - bottom) as nat, bottom);
        lemma2_to64();
        assert(raised(bottom - top) == 1);
        assert(pow2(top) * 1 == pow2(top));
    } else {
        lemma_pow2_adds(top, (bottom - top) as nat);
        assert(raised(top - bottom) == 1);
    }
}

/// The quotient of two finite magnitudes from a long division of their
/// significands.
proof fn lemma_quotient(a: nat, b: nat, shift: nat, dividend: nat, whole: nat, rest: nat)
    requires
        0 < a < INFINITE,
        0 < b < INFINITE,
        shift <= UNIT_EXPONENT,
        dividend == significand(a) * pow2(shift),
        dividend == whole * significand(b) + rest,
        rest < significand(b),
        whole >= 2 * TWO_53,
    ensures
        units(b) > 0,
        ({
            let at = exponent(a) - shift - exponent(b) + UNIT_EXPONENT;
            nearest_magnitude(units(a) * pow2(UNIT_EXPONENT as nat), units(b)) == if rest == 0 {
                nearest_dyadic(whole, at)
            } else {
                nearest_dyadic(2 * whole + 1, at - 1)
            }
        }),
{
    let at = exponent(a) - shift - exponent(b) + UNIT_EXPONENT;
    let one = pow2(UNIT_EXPONENT as nat);
    let num = units(a) * one;
    let den = units(b);
    let kept = (exponent(a) + UNIT_EXPONENT - shift) as nat;
    let divisor = significand(b);
    lemma_magnitude_parts(a);
    lemma_magnitude_parts(b);
    lemma_pow2_pos(exponent(b));
    lemma_pow2_pos(kept);
    lemma_nearest_dyadic(whole, at);
    assert(den > 0) by (nonlinear_arith)
        requires
            den == divisor * pow2(exponent(b)),
            divisor > 0,
            pow2(exponent(b)) > 0,
    ;
    lemma_pow2_adds(exponent(a), UNIT_EXPONENT as nat);
    lemma_pow2_adds(shift, kept);
    assert(shift + kept == exponent(a) + UNIT_EXPONENT as nat);
    assert(num == dividend * pow2(kept)) by (nonlinear_arith)
        requires
            num == (significand(a) * pow2(exponent(a))) * one,
            dividend == significand(a) * pow2(shift),
            pow2(exponent(a)) * one == pow2(shift) * pow2(kept),
    ;
    lemma_raised(kept, exponent(b));
    assert(at == kept - exponent(b));
    let step = raised(at) * pow2(exponent(b));
    assert(step > 0) by (nonlinear_arith)
        requires
            step == raised(at) * pow2(exponent(b)),
            raised(at) > 0,
            pow2(exponent(b)) > 0,
    ;
    assert(num * raised(-at) == dividend * step) by (nonlinear_arith)
        requires
            num == dividend * pow2(kept),
            pow2(kept) * raised(-at) == step,
    ;
    assert(raised(at) * den == divisor * step) by (nonlinear_arith)
        requires
            den == divisor * pow2(exponent(b)),
            step == raised(at) * pow2(exponent(b)),
    ;
    if rest == 0 {
        assert(num * raised(-at) == (whole * raised(at)) * den) by (nonlinear_arith)
            requires
                num * raised(-at) == dividend * step,
                raised(at) * den == divisor * step,
                dividend == whole * divisor,
        ;
        lemma_nearest_ratio(num, den, whole * raised(at), raised(-at));
    } else {
        assert(whole * (raised(at) * den) < num * raised(-at)) by (nonlinear_arith)
            requires
                num * raised(-at) == dividend * step,
                raised(at) * den == divisor * step,
                dividend == whole * divisor + rest,
                rest > 0,
                step > 0,
        ;
        assert(num * raised(-at) < (whole + 1) * (raised(at) * den)) by (nonlinear_arith)
            requires
                num * raised(-at) == dividend * step,
                raised(at) * den == divisor * step,
                dividend == whole * divisor + rest,
                rest < divisor,
                step > 0,
        ;
        lemma_nearest_sticky(num, den, whole, at);
    }
}

impl Double {
    /// `self * other`.
    pub fn times(self, other: Double) -> (result: Double)
        ensures
            result == self.product(other),
    {
        proof {
            reveal(Double::product);
        }
        let left: u64 = self.abs().bits;
        let right: u64 = other.abs().bits;
        let negative: bool = (self.bits >= SIGN) != (other.bits >= SIGN);
        if left > INFINITE || right > INFINITE || (left == INFINITE && right == 0) || (left == 0
            && right == INFINITE) {
            Double { bits: NOT_A_NUMBER }
        } else if left == INFINITE || right == INFINITE {
            join(negative, INFINITE)
        } else {
            let (a, at): (u64, i32) = split(left);
            let (b, bt): (u64, i32) = split(right);
            proof {
                lemma_product(left as nat, right as nat);
                assert(a * b < 0x400_0000_0000_0000_0000_0000_0000) by (nonlinear_arith)
                    requires
                        a < TWO_53,
                        b < TWO_53,
                ;
            }
            let magnitude: u64 = round_dyadic(a as u128 * b as u128, at + bt - UNIT_EXPONENT);
            join(negative, magnitude)
        }
    }

    /// `self / other`.
    pub fn over(self, other: Double) -> (result: Double)
        ensures
            result == self.quotient(other),
    {
        proof {
            reveal(Double::quotient);
        }
        let left: u64 = self.abs().bits;
        let right: u64 = other.abs().bits;
        let negative: bool = (self.bits >= SIGN) != (other.bits >= SIGN);
        if left > INFINITE || right > INFINITE || (left == INFINITE && right == INFINITE) || (left
            == 0 && right == 0) {
            Double { bits: NOT_A_NUMBER }
        } else if left == INFINITE || right == 0 {
            join(negative, INFINITE)
        } else if right == INFINITE {
            join(negative, 0)
        } else if left == 0 {
            proof {
                lemma_zero_quotient(right as nat);
            }
            join(negative, 0)
        } else {
            join(negative, divide(left, right))
        }
    }
}

/// Zero divided by anything else is zero.
proof fn lemma_zero_quotient(magnitude: nat)
    requires
        0 < magnitude < INFINITE,
    ensures
        nearest_magnitude(units(0) * pow2(UNIT_EXPONENT as nat), units(magnitude)) == 0,
{
    lemma_sum_sign(0, 0);
    lemma_sum_sign(magnitude, 0);
    let one = pow2(UNIT_EXPONENT as nat);
    assert(0 * one == 0) by (nonlinear_arith);
    assert(0 * units(magnitude) == 0) by (nonlinear_arith);
    lemma_nearest_ratio(0, units(magnitude), 0, 1);
}

/// The quotient of two nonzero finite magnitudes.
fn divide(left: u64, right: u64) -> (magnitude: u64)
    requires
        0 < left < INFINITE,
        0 < right < INFINITE,
    ensures
        magnitude == nearest_magnitude(
            units(left as nat) * pow2(UNIT_EXPONENT as nat),
            units(right as nat),
        ),
{
    let (a, at): (u64, i32) = split(left);
    let (b, bt): (u64, i32) = split(right);
    let length: u32 = bit_length(a as u128);
    let ghost bits = length as nat;
    proof {
        lemma2_to64_rest();
        lemma_length_of(a as nat, bits, 53);
    }
    let shift: u32 = 125 - length;
    let scale: u128 = power_of_two(shift);
    proof {
        lemma_left_aligned(a as nat, bits, 125);
        lemma_left_bounds();
    }
    let dividend: u128 = a as u128 * scale;
    let whole: u128 = dividend / b as u128;
    let rest: u128 = dividend % b as u128;
    proof {
        vstd::arithmetic::div_mod::lemma_fundamental_div_mod(dividend as int, b as int);
        lemma_mul_is_commutative(b as int, whole as int);
        assert(whole >= 2 * TWO_53) by (nonlinear_arith)
            requires
                dividend == whole * b + rest,
                rest < b,
                b < TWO_53,
                dividend >= 0x1000_0000_0000_0000_0000_0000_0000_0000,
        ;
        assert(whole <= dividend) by (nonlinear_arith)
            requires
                dividend == whole * b + rest,
                rest >= 0,
                b >= 1,
        ;
        lemma_quotient(
            left as nat,
            right as nat,
            shift as nat,
            dividend as nat,
            whole as nat,
            rest as nat,
        );
    }
    let position: i32 = at - shift as i32 - bt + UNIT_EXPONENT;
    if rest == 0 {
        round_dyadic(whole, position)
    } else {
        round_dyadic(2 * whole + 1, position - 1)
    }
}

/// 2^123, 2^124 and 2^125.
proof fn lemma_left_bounds()
    ensures
        pow2(123) == 0x800_0000_0000_0000_0000_0000_0000_0000,
        pow2(124) == 0x1000_0000_0000_0000_0000_0000_0000_0000,
        pow2(125) == 0x2000_0000_0000_0000_0000_0000_0000_0000,
{
    lemma2_to64();
    lemma2_to64_rest();
    lemma_pow2_adds(61, 64);
    lemma_pow2_adds(60, 64);
    lemma_pow2_adds(59, 64);
}

/// The bit length of a value below a power of two.
proof fn lemma_length_of(value: nat, length: nat, limit: nat)
    requires
        0 < value,
        value < pow2(length),
        length > 0 ==> value >= pow2((length - 1) as nat),
        value < pow2(limit),
    ensures
        0 < length <= limit,
{
    lemma2_to64();
    if length > limit {
        if limit < length - 1 {
            lemma_pow2_strictly_increases(limit, (length - 1) as nat);
        }
    }
}

/// A value moved up to a given length.
proof fn lemma_left_aligned(value: nat, length: nat, target: nat)
    requires
        0 < length <= target,
        pow2((length - 1) as nat) <= value < pow2(length),
    ensures
        pow2((target - 1) as nat) <= value * pow2((target - length) as nat) < pow2(target),
{
    let room = (target - length) as nat;
    lemma_pow2_pos(room);
    lemma_pow2_adds(length, room);
    lemma_pow2_adds((length - 1) as nat, room);
    lemma_mul_inequality(pow2((length - 1) as nat) as int, value as int, pow2(room) as int);
    lemma_mul_strict_inequality(value as int, pow2(length) as int, pow2(room) as int);
}

/// Integer square roots exist and are unique.
proof fn lemma_integer_root(square: nat, root: nat)
    requires
        root * root <= square < (root + 1) * (root + 1),
    ensures
        integer_root(square) == root,
{
    let other = integer_root(square);
    assert(other * other <= square < (other + 1) * (other + 1));
    if other < root {
        assert((other + 1) * (other + 1) <= root * root) by (nonlinear_arith)
            requires
                other + 1 <= root,
        ;
    }
    if root < other {
        assert((root + 1) * (root + 1) <= other * other) by (nonlinear_arith)
            requires
                root + 1 <= other,
        ;
    }
}

/// Every square has an integer root.
pub(crate) proof fn lemma_integer_root_exists(square: nat)
    ensures
        integer_root(square) * integer_root(square) <= square < (integer_root(square) + 1) * (
        integer_root(square) + 1),
    decreases square,
{
    if square == 0 {
        assert(0 * 0 <= square < (0 + 1) * (0 + 1)) by (nonlinear_arith)
            requires
                square == 0,
        ;
        lemma_integer_root(square, 0);
    } else {
        lemma_integer_root_exists((square - 1) as nat);
        let root = integer_root((square - 1) as nat);
        if (root + 1) * (root + 1) <= square {
            assert((root + 1) * (root + 1) < (root + 2) * (root + 2)) by (nonlinear_arith)
                requires
                    root >= 0,
            ;
            lemma_integer_root(square, root + 1);
        } else {
            lemma_integer_root(square, root);
        }
    }
}

/// The root of a square from the root of its leading bits.
proof fn lemma_root(square: nat, leading: nat, root: nat, at: nat)
    requires
        root * root <= leading < (root + 1) * (root + 1),
        root >= 2 * TWO_53,
        square == leading * (pow2(at) * pow2(at)),
    ensures
        ({
            let whole = integer_root(square);
            let inexact: nat = if whole * whole == square {
                0
            } else {
                1
            };
            nearest_magnitude(2 * whole + inexact, 2) == if root * root == leading {
                nearest_dyadic(root, at as int)
            } else {
                nearest_dyadic(2 * root + 1, at - 1)
            }
        }),
{
    let place = pow2(at);
    lemma_pow2_pos(at);
    lemma_integer_root_exists(square);
    let whole = integer_root(square);
    let inexact: nat = if whole * whole == square {
        0
    } else {
        1
    };
    let num = 2 * whole + inexact;
    let low = root * place;
    let high = (root + 1) * place;
    assert(low * low == (root * root) * (place * place)) by (nonlinear_arith)
        requires
            low == root * place,
    ;
    assert(high * high == ((root + 1) * (root + 1)) * (place * place)) by (nonlinear_arith)
        requires
            high == (root + 1) * place,
    ;
    assert(place * place > 0) by (nonlinear_arith)
        requires
            place > 0,
    ;
    assert(square < high * high) by (nonlinear_arith)
        requires
            square == leading * (place * place),
            leading < (root + 1) * (root + 1),
            high * high == ((root + 1) * (root + 1)) * (place * place),
            place * place > 0,
    ;
    assert(low * low <= square) by (nonlinear_arith)
        requires
            square == leading * (place * place),
            root * root <= leading,
            low * low == (root * root) * (place * place),
            place * place > 0,
    ;
    assert(low <= whole) by (nonlinear_arith)
        requires
            low * low <= square,
            square < (whole + 1) * (whole + 1),
            low >= 0,
            whole >= 0,
    ;
    assert(whole < high) by (nonlinear_arith)
        requires
            whole * whole <= square,
            square < high * high,
            high >= 0,
            whole >= 0,
    ;
    if root * root == leading {
        assert(low * low == square);
        assert(low < low + 1 && low * low < (low + 1) * (low + 1)) by (nonlinear_arith)
            requires
                low >= 0,
        ;
        lemma_integer_root(square, low);
        assert(whole == low);
        assert(num * 1 == (root * place) * 2);
        lemma_nearest_ratio(num, 2, root * place, 1);
    } else {
        assert(low * low < square) by (nonlinear_arith)
            requires
                square == leading * (place * place),
                root * root < leading,
                low * low == (root * root) * (place * place),
                place * place > 0,
        ;
        assert(raised(at as int) == place);
        assert(raised(-(at as int)) == 1) by {
            lemma2_to64();
        }
        if whole == low {
            assert(whole * whole != square);
        }
        assert(root * (place * 2) == 2 * low) by (nonlinear_arith)
            requires
                low == root * place,
        ;
        assert((root + 1) * (place * 2) == 2 * high) by (nonlinear_arith)
            requires
                high == (root + 1) * place,
        ;
        assert(num * 1 == num);
        lemma_nearest_sticky(num, 2, root, at as int);
    }
}

/// The integer square root of a number below 2^125.
fn long_root(square: u128) -> (root: u128)
    requires
        square < 0x2000_0000_0000_0000_0000_0000_0000_0000,
    ensures
        root * root <= square < (root + 1) * (root + 1),
        root < 0x8000_0000_0000_0000,
{
    let mut root: u128 = 0;
    let mut bit: u128 = 0x4000_0000_0000_0000;
    let mut step: u32 = 63;
    proof {
        lemma2_to64_rest();
    }
    assert(0x8000_0000_0000_0000nat * 0x8000_0000_0000_0000nat
        == 0x4000_0000_0000_0000_0000_0000_0000_0000nat) by (nonlinear_arith);
    while step > 0
        invariant
            step <= 63,
            step > 0 ==> bit == pow2((step - 1) as nat),
            step == 0 ==> bit == 0,
            root + 2 * bit <= 0x8000_0000_0000_0000,
            step == 0 ==> root < 0x8000_0000_0000_0000,
            root * root <= square,
            step > 0 ==> square < (root + 2 * bit) * (root + 2 * bit),
            step == 0 ==> square < (root + 1) * (root + 1),
        decreases step,
    {
        proof {
            lemma2_to64();
            lemma2_to64_rest();
            lemma_pow2_unfold(step as nat);
            if step > 1 {
                lemma_pow2_unfold((step - 1) as nat);
            }
            lemma_pow2_pos((step - 1) as nat);
        }
        let next: u128 = root + bit;
        proof {
            assert(next * next <= 0x4000_0000_0000_0000_0000_0000_0000_0000) by (nonlinear_arith)
                requires
                    next <= 0x8000_0000_0000_0000,
            ;
        }
        if next * next <= square {
            root = next;
        }
        step = step - 1;
        bit = bit / 2;
        proof {
            if step == 0 {
                assert(bit == 0);
            }
        }
    }
    root
}

impl Double {
    /// The square root.
    pub fn sqrt(self) -> (result: Double)
        ensures
            result == self.root(),
    {
        proof {
            reveal(Double::root);
        }
        let magnitude: u64 = self.abs().bits;
        if magnitude > INFINITE || (self.bits >= SIGN && magnitude != 0) {
            Double { bits: NOT_A_NUMBER }
        } else if magnitude == 0 || magnitude == INFINITE {
            self
        } else {
            let (a, at): (u64, i32) = split(magnitude);
            let length: u32 = bit_length(a as u128);
            let ghost bits = length as nat;
            proof {
                lemma2_to64_rest();
                lemma_length_of(a as nat, bits, 53);
            }
            // An even exponent, so that its half is the exponent of the root.
            let odd: bool = (at as u32 + length) % 2 == 0;
            let shift: u32 = if odd {
                124 - length
            } else {
                125 - length
            };
            let scale: u128 = power_of_two(shift);
            proof {
                lemma_left_aligned(a as nat, bits, (length + shift) as nat);
                lemma_left_bounds();
            }
            let leading: u128 = a as u128 * scale;
            let root: u128 = long_root(leading);
            let half: i32 = (at + UNIT_EXPONENT - shift as i32) / 2;
            proof {
                assert(root >= 2 * TWO_53) by (nonlinear_arith)
                    requires
                        leading < (root + 1) * (root + 1),
                        leading >= 0x800_0000_0000_0000_0000_0000_0000_0000,
                ;
                assert(2 * half == at + UNIT_EXPONENT - shift);
                lemma_leading(magnitude as nat, shift as nat, half as nat);
                lemma_root(
                    units(magnitude as nat) * pow2(UNIT_EXPONENT as nat),
                    leading as nat,
                    root as nat,
                    half as nat,
                );
            }
            if root * root == leading {
                join(false, round_dyadic(root, half))
            } else {
                join(false, round_dyadic(2 * root + 1, half - 1))
            }
        }
    }

    /// The number nearest to a count.
    pub fn from_count(count: usize) -> (result: Double)
        ensures
            result == Double::of_count(count as nat),
    {
        proof {
            reveal(Double::of_count);
        }
        join(false, round_dyadic(count as u128, UNIT_EXPONENT))
    }
}

/// The square of a number in terms of its leading bits and an even exponent.
proof fn lemma_leading(magnitude: nat, shift: nat, half: nat)
    requires
        2 * half + shift == exponent(magnitude) + UNIT_EXPONENT,
    ensures
        units(magnitude) * pow2(UNIT_EXPONENT as nat) == (significand(magnitude) * pow2(shift)) * (
        pow2(half) * pow2(half)),
{
    lemma_pow2_adds(exponent(magnitude), UNIT_EXPONENT as nat);
    lemma_pow2_adds(half, half);
    lemma_pow2_adds(shift, half + half);
    assert(units(magnitude) * pow2(UNIT_EXPONENT as nat) == (significand(magnitude) * pow2(shift))
        * (pow2(half) * pow2(half))) by (nonlinear_arith)
        requires
            units(magnitude) == significand(magnitude) * pow2(exponent(magnitude)),
            pow2(exponent(magnitude)) * pow2(UNIT_EXPONENT as nat) == pow2(shift) * (pow2(half)
                * pow2(half)),
    ;
}

/// Taking away a number that is not negative does not make a number larger.
pub proof fn lemma_difference_lowers(x: Double, m: Double)
    requires
        (Double { bits: 0 }).at_most(m),
        !x.difference(m).nan(),
    ensures
        x.difference(m).at_most(x),
{
    reveal(Double::sum);
    let minus = m.negated();
    if x.finite() && m.finite() {
        let result = x.sum(minus);
        let total = x.scaled() + minus.scaled();
        lemma_sum_sign(x.magnitude(), 0);
        lemma_sum_sign(m.magnitude(), 0);
        lemma_nearest_of_units(x.magnitude());
        assert(minus.magnitude() == m.magnitude());
        assert(minus.scaled() <= 0);
        if total > 0 {
            lemma_nearest_monotone(total as nat, 1, units(x.magnitude()), 1);
            lemma_nearest_bound(total as nat, 1);
        } else if total < 0 {
            lemma_nearest_bound((-total) as nat, 1);
            if x.negative() {
                lemma_nearest_monotone(units(x.magnitude()), 1, (-total) as nat, 1);
            }
        }
    }
}

/// What is not larger minus what is not smaller is not positive; where it is a
/// number at all.
pub proof fn lemma_difference_sign(low: Double, high: Double)
    requires
        low.at_most(high),
        !low.difference(high).nan(),
    ensures
        low.difference(high).at_most(Double { bits: 0 }),
        high.difference(low).nan() || (Double { bits: 0 }).at_most(high.difference(low)),
{
    reveal(Double::sum);
    if low.finite() && high.finite() {
        lemma_order_of_values(low, high);
        let total = low.scaled() - high.scaled();
        lemma_nearest_bound((-total) as nat, 1);
        assert(low.negated().scaled() == -low.scaled());
        assert(high.negated().scaled() == -high.scaled());
    }
}

/// The sum of numbers that are not negative is a number that is not negative.
pub proof fn lemma_sum_of_positive(a: Double, b: Double)
    requires
        (Double { bits: 0 }).at_most(a),
        (Double { bits: 0 }).at_most(b),
    ensures
        (Double { bits: 0 }).at_most(a.sum(b)),
{
    reveal(Double::sum);
    if a.finite() && b.finite() {
        lemma_order_of_values(Double { bits: 0 }, a);
        lemma_order_of_values(Double { bits: 0 }, b);
        let total = a.scaled() + b.scaled();
        lemma_nearest_bound(total as nat, 1);
    }
}

/// What is a number minus what is finite is a number.
pub proof fn lemma_difference_is_a_number(a: Double, b: Double)
    requires
        !a.nan(),
        b.finite(),
    ensures
        !a.difference(b).nan(),
{
    reveal(Double::sum);
    let total = a.scaled() + b.negated().scaled();
    lemma_nearest_bound((-total) as nat, 1);
    lemma_nearest_bound(total as nat, 1);
}

/// Taking the same away from a number that is not larger leaves what is not
/// larger.
pub proof fn lemma_difference_is_monotone(low: Double, high: Double, x: Double)
    requires
        low.at_most(high),
        !low.difference(x).nan(),
        !high.difference(x).nan(),
    ensures
        low.difference(x).at_most(high.difference(x)),
{
    reveal(Double::sum);
    let minus = x.negated();
    if low.finite() && high.finite() && minus.finite() {
        lemma_order_of_values(low, high);
        let (a, b) = (low.scaled() + minus.scaled(), high.scaled() + minus.scaled());
        lemma_nearest_bound((-a) as nat, 1);
        lemma_nearest_bound((-b) as nat, 1);
        lemma_nearest_bound(a as nat, 1);
        lemma_nearest_bound(b as nat, 1);
        if a > 0 {
            lemma_nearest_monotone(a as nat, 1, b as nat, 1);
        } else if b < 0 {
            lemma_nearest_monotone((-b) as nat, 1, (-a) as nat, 1);
        }
    } else if minus.finite() {
        if low.finite() {
            lemma_nearest_bound((-(low.scaled() + minus.scaled())) as nat, 1);
            lemma_nearest_bound((low.scaled() + minus.scaled()) as nat, 1);
        }
        if high.finite() {
            lemma_nearest_bound((-(high.scaled() + minus.scaled())) as nat, 1);
            lemma_nearest_bound((high.scaled() + minus.scaled()) as nat, 1);
        }
    }
}

/// A rounded magnitude is that of a number or of infinity.
pub proof fn lemma_nearest_bound(num: nat, den: nat)
    ensures
        nearest_magnitude(num, den) <= INFINITE,
{
}

/// The product of numbers that are not negative is not negative.
pub proof fn lemma_product_sign(a: Double, b: Double)
    requires
        !a.negative(),
        !b.negative(),
        !a.product(b).nan(),
    ensures
        !a.product(b).negative(),
        (Double { bits: 0 }).at_most(a.product(b)),
{
    reveal(Double::product);
    lemma_nearest_bound(
        units(a.magnitude()) * units(b.magnitude()),
        pow2(UNIT_EXPONENT as nat),
    );
}

/// Multiplication is commutative.
pub proof fn lemma_product_commutes(a: Double, b: Double)
    ensures
        a.product(b) == b.product(a),
{
    reveal(Double::product);
    lemma_mul_is_commutative(units(a.magnitude()) as int, units(b.magnitude()) as int);
}

/// Addition is commutative.
pub proof fn lemma_sum_commutes(a: Double, b: Double)
    ensures
        a.sum(b) == b.sum(a),
{
    reveal(Double::sum);
}

/// Half of a number that is not negative is not larger than the number, and not
/// negative.
pub proof fn lemma_half_lowers(x: Double)
    requires
        !x.nan(),
        !x.negative(),
    ensures
        !(Double { bits: HALF }).product(x).nan(),
        !(Double { bits: HALF }).product(x).negative(),
        (Double { bits: HALF }).product(x).at_most(x),
{
    reveal(Double::product);
    let half = Double { bits: HALF };
    let one = pow2(UNIT_EXPONENT as nat);
    if x.finite() {
        lemma_half_units();
        lemma_pow2_pos(UNIT_EXPONENT as nat);
        lemma_pow2_unfold(UNIT_EXPONENT as nat);
        let value = units(x.magnitude());
        assert((units(half.magnitude()) * value) * 1 <= value * one) by (nonlinear_arith)
            requires
                2 * units(half.magnitude()) == one,
                value >= 0,
                one > 0,
        ;
        lemma_nearest_monotone(units(half.magnitude()) * value, one, value, 1);
        lemma_nearest_of_units(x.magnitude());
    }
}

/// The value of one half.
pub(crate) proof fn lemma_half_units()
    ensures
        2 * units(HALF as nat) == pow2(UNIT_EXPONENT as nat),
        (Double { bits: HALF }).magnitude() == HALF,
{
    lemma2_to64();
    lemma2_to64_rest();
    assert(significand(HALF as nat) == TWO_52);
    assert(exponent(HALF as nat) == 1021);
    lemma_pow2_adds(52, 1021);
    lemma_pow2_unfold(UNIT_EXPONENT as nat);
}

/// Halving is exact for numbers that are not tiny: it takes one off the
/// exponent.
pub proof fn lemma_half_is_exact(x: Double)
    requires
        2 * TWO_52 <= x.magnitude() < INFINITE,
    ensures
        (Double { bits: HALF }).product(x) == signed(
            x.negative(),
            (x.magnitude() - TWO_52) as nat,
        ),
{
    reveal(Double::product);
    let m = x.magnitude();
    let below = (m - TWO_52) as nat;
    let half = units(HALF as nat);
    let one = pow2(UNIT_EXPONENT as nat);
    lemma_half_units();
    lemma_pow2_pos(UNIT_EXPONENT as nat);
    assert(significand(below) == significand(m) && exponent(below) + 1 == exponent(m));
    lemma_pow2_unfold(exponent(m));
    assert(units(m) == 2 * units(below)) by (nonlinear_arith)
        requires
            units(m) == significand(m) * pow2(exponent(m)),
            units(below) == significand(m) * pow2(exponent(below)),
            pow2(exponent(m)) == 2 * pow2(exponent(below)),
    ;
    assert((half * units(m)) * 1 == units(below) * one) by (nonlinear_arith)
        requires
            units(m) == 2 * units(below),
            2 * half == one,
    ;
    lemma_nearest_ratio(half * units(m), one, units(below), 1);
    lemma_nearest_of_units(below);
}

/// The value of one.
pub proof fn lemma_one_units()
    ensures
        units(ONE as nat) == pow2(UNIT_EXPONENT as nat),
        (Double { bits: ONE }).magnitude() == ONE,
{
    lemma2_to64();
    lemma2_to64_rest();
    assert(significand(ONE as nat) == TWO_52);
    assert(exponent(ONE as nat) == 1022);
    lemma_pow2_adds(52, 1022);
}

/// A finite number but zero divided by itself is one.
pub proof fn lemma_quotient_of_itself(x: Double)
    requires
        x.finite(),
        !x.zero(),
    ensures
        x.quotient(x) == (Double { bits: ONE }),
{
    reveal(Double::quotient);
    let value = units(x.magnitude());
    let one = pow2(UNIT_EXPONENT as nat);
    lemma_sum_sign(x.magnitude(), 0);
    lemma_one_units();
    lemma_nearest_ratio(value * one, value, one, 1);
    lemma_nearest_of_units(ONE as nat);
}

/// A positive count, as a number, divided by itself is one.
pub proof fn lemma_count_over_itself(count: nat)
    requires
        0 < count <= usize::MAX,
    ensures
        Double::of_count(count).quotient(Double::of_count(count)) == (Double { bits: ONE }),
{
    lemma_count_in_range(count);
    lemma_quotient_of_itself(Double::of_count(count));
}

/// A positive count, as a number, is finite and at least one.
pub(crate) proof fn lemma_count_in_range(count: nat)
    requires
        0 < count <= usize::MAX,
    ensures
        Double::of_count(count).finite(),
        !Double::of_count(count).negative(),
        ONE <= Double::of_count(count).magnitude(),
        Double::of_count(count).magnitude() == nearest_magnitude(
            count * pow2(UNIT_EXPONENT as nat),
            1,
        ),
{
    reveal(Double::of_count);
    let one = pow2(UNIT_EXPONENT as nat);
    lemma_one_units();
    lemma_pow2_pos(UNIT_EXPONENT as nat);
    // At least one, and far from too large.
    lemma_nearest_of_units(ONE as nat);
    assert(one * 1 <= count * one) by (nonlinear_arith)
        requires
            count >= 1,
            one > 0,
    ;
    lemma_nearest_monotone(one, 1, count * one, 1);
    let large: nat = 0x43F0_0000_0000_0000;
    lemma2_to64();
    lemma2_to64_rest();
    assert(significand(large) == TWO_52);
    assert(exponent(large) == 1086);
    lemma_pow2_adds(12, UNIT_EXPONENT as nat);
    lemma_pow2_adds(52, 1086);
    lemma_pow2_adds(64, UNIT_EXPONENT as nat);
    assert(units(large) == 0x1_0000_0000_0000_0000 * one);
    lemma_nearest_of_units(large);
    assert((count * one) * 1 <= units(large) * 1) by (nonlinear_arith)
        requires
            count <= 0x1_0000_0000_0000_0000,
            units(large) == 0x1_0000_0000_0000_0000 * one,
    ;
    lemma_nearest_monotone(count * one, 1, units(large), 1);
}

/// Where the magnitudes differ, so do the values; zeros add up to zero.
proof fn lemma_sum_sign(big: nat, small: nat)
    requires
        small <= big < INFINITE,
    ensures
        small < big ==> units(small) < units(big),
        big > 0 ==> units(big) > 0,
        big == 0 ==> units(big) == 0 && nearest_magnitude(0, 1) == 0,
        units(small) >= 0,
{
    assert(units(0) == 0) by (nonlinear_arith)
        requires
            units(0) == significand(0) * pow2(exponent(0)),
            significand(0) == 0,
    ;
    if small < big {
        lemma_units_increase(small, big);
    }
    if big > 0 {
        lemma_units_increase(0, big);
    } else {
        lemma_nearest_of_units(0);
    }
}

} // verus!
