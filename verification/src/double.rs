//! IEEE 754 binary64 numbers, held as their bit patterns.
//!
//! Arithmetic is the standard's: every operation is the exact result rounded to
//! nearest, ties to even. All of it is integer arithmetic, so that contracts can
//! say exactly which number comes out.

use crate::rounding::{
    lemma_dyadic_shift_left, nearest_dyadic, nearest_magnitude, INFINITE, TWO_52, TWO_53,
};
use vstd::arithmetic::mul::lemma_mul_strict_inequality;
use vstd::arithmetic::power2::{
    lemma2_to64, lemma_pow2_pos, lemma_pow2_strictly_increases, lemma_pow2_unfold, pow2,
};
use vstd::prelude::*;

verus! {

/// The sign bit.
pub const SIGN: u64 = 0x8000_0000_0000_0000;

/// The bit pattern of the value that stands for "not a number".
pub const NOT_A_NUMBER: u64 = 0x7FF8_0000_0000_0000;

/// The bit pattern of one.
pub const ONE: u64 = 0x3FF0_0000_0000_0000;

/// The bit pattern of minus one.
pub const MINUS_ONE: u64 = 0xBFF0_0000_0000_0000;

/// The bit pattern of two.
pub const TWO: u64 = 0x4000_0000_0000_0000;

/// The bit pattern of one half.
pub const HALF: u64 = 0x3FE0_0000_0000_0000;

/// The number of halvings that separate one from the least positive number.
pub const UNIT_EXPONENT: i32 = 1074;

/// A binary64 number. `==` compares bit patterns: it tells the two zeros apart
/// and finds a NaN equal to itself. The numeric comparisons are methods.
#[derive(Clone, Copy, Debug, PartialEq, Eq, Structural)]
pub struct Double {
    pub bits: u64,
}

/// The significand of a finite magnitude, hidden bit included.
pub open spec fn significand(magnitude: nat) -> nat {
    if magnitude < TWO_52 {
        magnitude
    } else {
        TWO_52 as nat + magnitude % (TWO_52 as nat)
    }
}

/// The exponent of a finite magnitude's last place, in units.
pub open spec fn exponent(magnitude: nat) -> nat {
    if magnitude < TWO_52 {
        0
    } else {
        (magnitude / (TWO_52 as nat) - 1) as nat
    }
}

/// The value of a finite magnitude, in units of 2^-1074.
pub open spec fn units(magnitude: nat) -> nat {
    significand(magnitude) * pow2(exponent(magnitude))
}

/// The number with the given sign and magnitude.
pub open spec fn signed(negative: bool, magnitude: nat) -> Double {
    Double {
        bits: (if negative {
            SIGN + magnitude
        } else {
            magnitude as int
        }) as u64,
    }
}

/// The largest integer whose square is at most `square`.
pub open spec fn integer_root(square: nat) -> nat {
    choose|root: nat| root * root <= square < #[trigger] ((root + 1) * (root + 1))
}

impl Double {
    pub open spec fn negative(self) -> bool {
        self.bits >= SIGN
    }

    pub open spec fn magnitude(self) -> nat {
        if self.bits >= SIGN {
            (self.bits - SIGN) as nat
        } else {
            self.bits as nat
        }
    }

    pub open spec fn nan(self) -> bool {
        self.magnitude() > INFINITE
    }

    pub open spec fn infinite(self) -> bool {
        self.magnitude() == INFINITE
    }

    pub open spec fn finite(self) -> bool {
        self.magnitude() < INFINITE
    }

    /// Either zero.
    pub open spec fn zero(self) -> bool {
        self.magnitude() == 0
    }

    /// The value of a finite number in units of 2^-1074: an integer.
    pub open spec fn scaled(self) -> int {
        if self.negative() {
            -(units(self.magnitude()) as int)
        } else {
            units(self.magnitude()) as int
        }
    }

    /// The place of a number on the line from minus to plus infinity.
    pub open spec fn rank(self) -> int {
        if self.negative() {
            -(self.magnitude() as int)
        } else {
            self.magnitude() as int
        }
    }

    /// `self < other`; false where either is NaN.
    pub open spec fn less(self, other: Double) -> bool {
        !self.nan() && !other.nan() && self.rank() < other.rank()
    }

    /// `self <= other`; false where either is NaN.
    pub open spec fn at_most(self, other: Double) -> bool {
        !self.nan() && !other.nan() && self.rank() <= other.rank()
    }

    /// The key of the total order that puts negative NaNs first and positive
    /// ones last, and the negative zero before the positive one.
    pub open spec fn total_key(self) -> int {
        if self.negative() {
            -(self.magnitude() as int) - 1
        } else {
            self.magnitude() as int
        }
    }

    pub open spec fn negated(self) -> Double {
        signed(!self.negative(), self.magnitude())
    }

    pub open spec fn absolute(self) -> Double {
        signed(false, self.magnitude())
    }

    /// The larger of two numbers; the other one where one is NaN.
    pub open spec fn larger(self, other: Double) -> Double {
        if self.nan() {
            other
        } else if self.less(other) {
            other
        } else {
            self
        }
    }

    /// The smaller of two numbers; the other one where one is NaN.
    pub open spec fn smaller(self, other: Double) -> Double {
        if self.nan() {
            other
        } else if other.less(self) {
            other
        } else {
            self
        }
    }

    /// The number moved into `[low, high]`; NaN stays NaN.
    pub open spec fn clamped(self, low: Double, high: Double) -> Double {
        if self.less(low) {
            low
        } else if high.less(self) {
            high
        } else {
            self
        }
    }

    /// The exact sum, rounded.
    #[verifier::opaque]
    pub open spec fn sum(self, other: Double) -> Double {
        if self.nan() || other.nan() || (self.infinite() && other.infinite() && self.negative()
            != other.negative()) {
            Double { bits: NOT_A_NUMBER }
        } else if self.infinite() {
            self
        } else if other.infinite() {
            other
        } else {
            let total = self.scaled() + other.scaled();
            if total == 0 {
                signed(self.negative() && other.negative(), 0)
            } else if total < 0 {
                signed(true, nearest_magnitude((-total) as nat, 1))
            } else {
                signed(false, nearest_magnitude(total as nat, 1))
            }
        }
    }

    /// The exact difference, rounded.
    pub open spec fn difference(self, other: Double) -> Double {
        self.sum(other.negated())
    }

    /// The exact product, rounded.
    #[verifier::opaque]
    pub open spec fn product(self, other: Double) -> Double {
        let negative = self.negative() != other.negative();
        if self.nan() || other.nan() || (self.infinite() && other.zero()) || (self.zero()
            && other.infinite()) {
            Double { bits: NOT_A_NUMBER }
        } else if self.infinite() || other.infinite() {
            signed(negative, INFINITE as nat)
        } else {
            signed(
                negative,
                nearest_magnitude(
                    units(self.magnitude()) * units(other.magnitude()),
                    pow2(UNIT_EXPONENT as nat),
                ),
            )
        }
    }

    /// The exact quotient, rounded.
    #[verifier::opaque]
    pub open spec fn quotient(self, other: Double) -> Double {
        let negative = self.negative() != other.negative();
        if self.nan() || other.nan() || (self.infinite() && other.infinite()) || (self.zero()
            && other.zero()) {
            Double { bits: NOT_A_NUMBER }
        } else if self.infinite() || other.zero() {
            signed(negative, INFINITE as nat)
        } else if other.infinite() {
            signed(negative, 0)
        } else {
            signed(
                negative,
                nearest_magnitude(
                    units(self.magnitude()) * pow2(UNIT_EXPONENT as nat),
                    units(other.magnitude()),
                ),
            )
        }
    }

    /// The square root, rounded. Below the least whole unit the exact root only
    /// matters in that it is there, so one bit stands for it.
    #[verifier::opaque]
    pub open spec fn root(self) -> Double {
        if self.nan() || (self.negative() && !self.zero()) {
            Double { bits: NOT_A_NUMBER }
        } else if self.zero() || self.infinite() {
            self
        } else {
            let square = units(self.magnitude()) * pow2(UNIT_EXPONENT as nat);
            let whole = integer_root(square);
            let inexact: nat = if whole * whole == square {
                0
            } else {
                1
            };
            signed(false, nearest_magnitude(2 * whole + inexact, 2))
        }
    }

    /// The number nearest to a count.
    #[verifier::opaque]
    pub open spec fn of_count(count: nat) -> Double {
        signed(false, nearest_dyadic(count, UNIT_EXPONENT as int))
    }
}

/// A finite magnitude is its significand on top of its exponent.
pub proof fn lemma_magnitude_parts(magnitude: nat)
    requires
        magnitude < INFINITE,
    ensures
        magnitude == exponent(magnitude) * TWO_52 + significand(magnitude),
        significand(magnitude) < TWO_53,
        exponent(magnitude) <= 2045,
        exponent(magnitude) > 0 ==> significand(magnitude) >= TWO_52,
        significand(magnitude) == 0 <==> magnitude == 0,
{
}

/// A finite number is the nearest to itself.
pub proof fn lemma_nearest_of_units(magnitude: nat)
    requires
        magnitude < INFINITE,
    ensures
        nearest_magnitude(units(magnitude), 1) == magnitude,
{
    lemma2_to64();
    lemma_magnitude_parts(magnitude);
    let value = significand(magnitude);
    assert(value * pow2(0) == value) by (nonlinear_arith)
        requires
            pow2(0) == 1,
    ;
    lemma_dyadic_shift_left(value, exponent(magnitude), 0);
}

/// A magnitude counts upwards with its value.
pub proof fn lemma_units_increase(low: nat, high: nat)
    requires
        low < high < INFINITE,
    ensures
        units(low) < units(high),
{
    lemma_magnitude_parts(low);
    lemma_magnitude_parts(high);
    let (p, q) = (exponent(low), exponent(high));
    lemma_pow2_pos(p);
    lemma_pow2_pos(q);
    if p == q {
        lemma_mul_strict_inequality(significand(low) as int, significand(high) as int, pow2(p) as int);
    } else {
        assert(p < q);
        lemma_pow2_unfold(q);
        if p < q - 1 {
            lemma_pow2_strictly_increases(p, (q - 1) as nat);
        }
        assert(units(low) < units(high)) by (nonlinear_arith)
            requires
                units(low) == significand(low) * pow2(p),
                units(high) == significand(high) * pow2(q),
                significand(low) < TWO_53,
                significand(high) >= TWO_52,
                pow2(q) >= 2 * pow2(p),
                pow2(p) > 0,
        ;
    }
}

/// The order of numbers is the order of their values.
pub proof fn lemma_order_of_values(a: Double, b: Double)
    requires
        a.finite(),
        b.finite(),
    ensures
        a.less(b) <==> a.scaled() < b.scaled(),
        a.at_most(b) <==> a.scaled() <= b.scaled(),
{
    lemma2_to64();
    let (p, q) = (a.magnitude(), b.magnitude());
    if p < q {
        lemma_units_increase(p, q);
    }
    if q < p {
        lemma_units_increase(q, p);
    }
    assert(units(0) == 0) by (nonlinear_arith)
        requires
            units(0) == significand(0) * pow2(exponent(0)),
            significand(0) == 0,
    ;
    if 0 < p {
        lemma_units_increase(0, p);
    }
    if 0 < q {
        lemma_units_increase(0, q);
    }
}

impl Double {
    pub fn is_nan(self) -> (result: bool)
        ensures
            result == self.nan(),
    {
        let magnitude: u64 = if self.bits >= SIGN {
            self.bits - SIGN
        } else {
            self.bits
        };
        magnitude > INFINITE
    }

    pub fn is_finite(self) -> (result: bool)
        ensures
            result == self.finite(),
    {
        let magnitude: u64 = if self.bits >= SIGN {
            self.bits - SIGN
        } else {
            self.bits
        };
        magnitude < INFINITE
    }

    /// Whether the number is either zero.
    pub fn is_zero(self) -> (result: bool)
        ensures
            result == self.zero(),
    {
        self.bits == 0 || self.bits == SIGN
    }

    /// `self < other`.
    pub fn lt(self, other: Double) -> (result: bool)
        ensures
            result == self.less(other),
    {
        if self.is_nan() || other.is_nan() {
            false
        } else if self.bits >= SIGN {
            if other.bits >= SIGN {
                self.bits > other.bits
            } else {
                self.bits != SIGN || other.bits != 0
            }
        } else if other.bits >= SIGN {
            false
        } else {
            self.bits < other.bits
        }
    }

    /// `self <= other`.
    pub fn le(self, other: Double) -> (result: bool)
        ensures
            result == self.at_most(other),
    {
        if self.is_nan() || other.is_nan() {
            false
        } else {
            !other.lt(self)
        }
    }

    /// Whether `self` stands before `other` in the total order.
    pub fn total_lt(self, other: Double) -> (result: bool)
        ensures
            result == (self.total_key() < other.total_key()),
    {
        if self.bits >= SIGN {
            if other.bits >= SIGN {
                self.bits > other.bits
            } else {
                true
            }
        } else if other.bits >= SIGN {
            false
        } else {
            self.bits < other.bits
        }
    }

    pub fn neg(self) -> (result: Double)
        ensures
            result == self.negated(),
    {
        if self.bits >= SIGN {
            Double { bits: self.bits - SIGN }
        } else {
            Double { bits: self.bits + SIGN }
        }
    }

    pub fn abs(self) -> (result: Double)
        ensures
            result == self.absolute(),
    {
        if self.bits >= SIGN {
            Double { bits: self.bits - SIGN }
        } else {
            self
        }
    }

    pub fn max(self, other: Double) -> (result: Double)
        ensures
            result == self.larger(other),
    {
        if self.is_nan() || self.lt(other) {
            other
        } else {
            self
        }
    }

    pub fn min(self, other: Double) -> (result: Double)
        ensures
            result == self.smaller(other),
    {
        if self.is_nan() || other.lt(self) {
            other
        } else {
            self
        }
    }

    pub fn clamp(self, low: Double, high: Double) -> (result: Double)
        requires
            low.at_most(high),
        ensures
            result == self.clamped(low, high),
    {
        if self.lt(low) {
            low
        } else if high.lt(self) {
            high
        } else {
            self
        }
    }
}

} // verus!
