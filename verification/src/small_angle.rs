//! The angle below which a series stands for the closed form of the logarithm.

use crate::double::{exponent, lemma_order_of_values, significand, Double, UNIT_EXPONENT};
use crate::error::value;
use crate::kinematics::SMALL_ANGLE;
use crate::reals::{lemma_commutes, lemma_strict_order};
use vstd::arithmetic::mul::{
    lemma_mul_inequality, lemma_mul_is_associative, lemma_mul_is_commutative,
};
use vstd::arithmetic::power2::{
    lemma2_to64, lemma2_to64_rest, lemma_pow2_adds, lemma_pow2_pos, pow2,
};
use vstd::prelude::*;

verus! {

/// The units of the small angle.
proof fn lemma_small_units()
    ensures
        (Double { bits: SMALL_ANGLE }).finite(),
        (Double { bits: SMALL_ANGLE }).scaled() * 10000000 <= 19 * pow2(UNIT_EXPONENT as nat),
{
    lemma2_to64();
    lemma2_to64_rest();
    let bits = SMALL_ANGLE as nat;
    assert(significand(bits) == 4722366482869645);
    assert(exponent(bits) == 1002);
    lemma_pow2_adds(1002, 72);
    lemma_pow2_adds(64, 8);
    lemma_pow2_pos(1002);
    let (p, q) = (pow2(1002) as int, pow2(72) as int);
    lemma_mul_inequality(47223664828696450000000int, 19 * q, p);
    lemma_mul_is_associative(10000000, 4722366482869645, p);
    lemma_mul_is_associative(19, q, p);
    lemma_mul_is_commutative(q, p);
}

/// A quotient of units is below a bound that the units are.
proof fn lemma_quotient_below(n: real, u: real)
    requires
        u > 0int as real,
        n * (10000000int as real) <= (19int as real) * u,
    ensures
        n / u <= (19int as real) / (10000000int as real),
{
    let r = n / u;
    assert(r * u == n) by (nonlinear_arith)
        requires
            r == n / u,
            u > 0int as real,
    ;
    let most = (19int as real) / (10000000int as real);
    if r > most {
        lemma_strict_order(u, most, r);
        lemma_commutes(u, r);
    }
}

/// A finite number whose value is above 1.9e-6 is not below the small angle.
pub(crate) proof fn lemma_not_small(x: Double)
    requires
        x.finite(),
        value(x) > (19int as real) / (10000000int as real),
    ensures
        !x.less(Double { bits: SMALL_ANGLE }),
{
    let small = Double { bits: SMALL_ANGLE };
    lemma_small_units();
    lemma_order_of_values(x, small);
    lemma_pow2_pos(UNIT_EXPONENT as nat);
    if x.scaled() < small.scaled() {
        lemma_quotient_below(x.scaled() as real, pow2(UNIT_EXPONENT as nat) as real);
    }
}

} // verus!
