//! What the merit of an iterate adds up: every knot's pose error, every joint's motion over
//! every interval, all motion backward, all slip and all speed beyond the limit.

use crate::configs::{EeTracking, TrajectoryConfig};
use crate::cost::step_between;
use crate::definite::lemma_tiny;
use crate::diagnostics::{lateral_slip, BaseIndices, Heading};
use crate::double::{exponent, significand, Double, HALF, UNIT_EXPONENT};
use crate::error::{
    half_ulp, least, lemma_distributes, lemma_half_ulp, lemma_product_error, lemma_scaled_order,
    lemma_size_of_product, lemma_sum_error, lemma_value_of_zero, size, value,
};
use crate::feasible::{greater, lemma_value_of_absolute, lemma_values_in_order};
use crate::finiteness::{lemma_parts_of_product, lemma_parts_of_sum};
use crate::linearization::{forward_progress, knots_shaped, Evaluation, KnotEvaluation};
use crate::merit::{
    backward_merit, backward_square, excess_sum, half_weighted, merit_of, pose_violation, size_sum,
    slip_violation, smoothness_merit, tracking_merit, velocity_violation, MERIT_PENALTY,
};
use crate::quotients::lemma_least_is_tiny;
use crate::reals::{
    lemma_associates, lemma_bounded_product, lemma_commutes, lemma_exchanges, lemma_one,
    lemma_square, lemma_zero,
};
use crate::rounding::TWO_53;
use crate::series::{square_sum, total};
use crate::slip::{lemma_value_of_half, lemma_value_of_negated};
use crate::sums::{
    added, lemma_finite_terms, lemma_positive_terms, lemma_product_rounds, lemma_square_sum_near,
    lemma_total_near, rounds, sizes_added, squares, sum_rounding,
};
use vstd::arithmetic::power2::{
    lemma2_to64, lemma2_to64_rest, lemma_pow2_adds, lemma_pow2_pos, pow2,
};
use vstd::prelude::*;

verus! {

/// How far a sum of `count` numbers can be from the sum of what they stand for: each is off
/// by `c` roundings of its share of `whole`.
pub open spec fn tally_rounding(count: nat, c: nat, whole: real) -> real {
    ((2 * count + c + 3) as real) * (half_ulp() * whole) + ((2 * count + 2 * (count * c)) as real)
        * least()
}

/// Whether a number stands for a real, up to `c` roundings of something at least as large.
pub open spec fn stands_for(x: Double, exact: real, share: real, c: nat) -> bool {
    &&& size(value(x) - exact) <= (c as real) * (half_ulp() * share + least())
    &&& size(exact) <= share
}

/// The sum of the numbers, next to the sum of what they stand for.
proof fn lemma_shares_add_up(
    values: Seq<Double>,
    terms: Seq<real>,
    shares: Seq<real>,
    c: nat,
    count: nat,
)
    requires
        count <= values.len(),
        values.len() == terms.len() == shares.len(),
        forall|i: int|
            0 <= i < values.len() ==> stands_for(#[trigger] values[i], terms[i], shares[i], c),
    ensures
        ({
            let own = Seq::new(values.len(), |i: int| value(values[i]));
            let off = (c as real) * (half_ulp() * added(shares, count)) + ((count * c) as real)
                * least();
            &&& size(added(own, count) - added(terms, count)) <= off
            &&& sizes_added(own, count) <= added(shares, count) + off
            &&& added(shares, count) >= 0int as real
            &&& size(added(terms, count)) <= added(shares, count)
        }),
    decreases count,
{
    let k = c as real;
    let (h, l) = (half_ulp(), least());
    lemma_zero(h);
    lemma_zero(k);
    lemma_zero(l);
    lemma_commutes(l, 0int as real);
    if count > 0 {
        let i = count - 1;
        lemma_shares_add_up(values, terms, shares, c, i as nat);
        assert(stands_for(values[i], terms[i], shares[i], c));
        let before = added(shares, i as nat);
        lemma_distributes(h, before, shares[i]);
        lemma_distributes(k, h * before, h * shares[i]);
        lemma_distributes(k, h * shares[i], l);
        let made = (i * c) as real;
        assert(i * c + c == count * c) by (nonlinear_arith)
            requires
                i + 1 == count,
        ;
        lemma_distributes(l, made, k);
    }
}

/// A rounded sum of up to a million numbers is the sum of what they stand for, up to
/// rounding.
proof fn lemma_tally_near(values: Seq<Double>, terms: Seq<real>, shares: Seq<real>, c: nat)
    requires
        values.len() == terms.len() == shares.len(),
        values.len() <= 1000000,
        c <= 10000000,
        total(values).finite(),
        forall|i: int|
            0 <= i < values.len() ==> stands_for(#[trigger] values[i], terms[i], shares[i], c),
    ensures
        size(value(total(values)) - added(terms, terms.len())) <= tally_rounding(
            values.len(),
            c,
            added(shares, shares.len()),
        ),
        size(added(terms, terms.len())) <= added(shares, shares.len()),
{
    lemma_half_ulp();
    lemma_least_is_tiny();
    let n = values.len();
    let own = Seq::new(n, |i: int| value(values[i]));
    let (h, l) = (half_ulp(), least());
    assert forall|i: int| 0 <= i < n implies rounds(#[trigger] values[i], own[i]) by {
        lemma_scaled_order(h, 0int as real, size(own[i]));
        lemma_zero(h);
    }
    lemma_total_near(values, own);
    lemma_shares_add_up(values, terms, shares, c, n);
    let whole = added(shares, n);
    let (k, m) = (c as real, (2 * n + 2) as real);
    let hw = h * whole;
    let lost = ((n * c) as real) * l;
    let off = k * hw + lost;
    lemma_scaled_order(h, 0int as real, whole);
    lemma_zero(h);
    assert(n * c >= 0) by (nonlinear_arith);
    lemma_scaled_order(l, 0int as real, (n * c) as real);
    lemma_zero(l);
    lemma_commutes(l, (n * c) as real);
    lemma_scaled_order(hw, 0int as real, k);
    lemma_zero(hw);
    lemma_commutes(hw, k);
    // (2n + 2)·h·(whole + off)
    lemma_scaled_order(h, sizes_added(own, n), whole + off);
    lemma_distributes(h, whole, off);
    lemma_scaled_order(m, h * sizes_added(own, n), hw + h * off);
    lemma_distributes(m, hw, h * off);
    lemma_associates(m, h, off);
    let ten = 10000000int as real;
    lemma_commutes(h, TWO_53 as int as real);
    assert(TWO_53 as int as real == 9007199254740992int as real);
    lemma_scaled_order(h, m, ten);
    lemma_commutes(h, m);
    lemma_commutes(h, ten);
    assert(m * h <= (1int as real) / ten);
    lemma_scaled_order(off, m * h, (1int as real) / ten);
    lemma_commutes(off, m * h);
    let small = off * ((1int as real) / ten);
    assert(small * ten == off) by (nonlinear_arith)
        requires
            small == off * ((1int as real) / ten),
            ten == 10000000int as real,
    ;
    lemma_scaled_order(hw, k, ten);
    lemma_commutes(hw, ten);
    assert(small <= hw + lost);
    // All together.
    let a = (2 * n + c + 3) as real;
    assert(a == m + k + (1int as real));
    lemma_distributes(hw, m + k, 1int as real);
    lemma_distributes(hw, m, k);
    lemma_one(hw);
    lemma_commutes(hw, m);
    lemma_commutes(hw, 1int as real);
    let b = (2 * n + 2 * (n * c)) as real;
    assert(b == (2 * n) as real + (2int as real) * ((n * c) as real));
    lemma_distributes(l, (2 * n) as real, (2int as real) * ((n * c) as real));
    lemma_associates(2int as real, (n * c) as real, l);
}

/// Half a weight times a number, up to rounding.
proof fn lemma_half_weighted_near(weight: Double, sum: Double)
    requires
        half_weighted(weight, sum).finite(),
    ensures
        weight.finite() && sum.finite(),
        ({
            let exact = (value(weight) * value(sum)) / (2int as real);
            size(value(half_weighted(weight, sum)) - exact) <= (2int as real) * (half_ulp() * size(
                value(weight) * value(sum),
            )) + (2int as real) * (least() * (size(value(sum)) + (1int as real)))
        }),
{
    lemma_half_ulp();
    lemma_least_is_tiny();
    lemma_value_of_half();
    let (h, l, one) = (half_ulp(), least(), 1int as real);
    let half = (Double { bits: HALF }).product(weight);
    lemma_parts_of_product(half, sum);
    lemma_parts_of_product(Double { bits: HALF }, weight);
    lemma_product_error(Double { bits: HALF }, weight);
    lemma_product_error(half, sum);
    let (w, v, a) = (value(weight), value(sum), value(half));
    let f = value(Double { bits: HALF });
    lemma_associates(2int as real, f, w);
    lemma_one(w);
    lemma_commutes(one, w);
    assert(f * w == w / (2int as real));
    // |a − w/2| ≤ h·|w|/2 + l
    let e = h * (size(w) / (2int as real)) + l;
    lemma_bounded_product(a - f * w, v, e, size(v));
    lemma_distributes(v, a, f * w);
    lemma_associates(f, w, v);
    lemma_associates(2int as real, f, w * v);
    lemma_one(w * v);
    lemma_commutes(one, w * v);
    assert((f * w) * v == (w * v) / (2int as real));
    lemma_distributes(size(v), h * (size(w) / (2int as real)), l);
    lemma_size_of_product(w, v);
    let hw = h * size(w * v);
    lemma_associates(h, size(w) / (2int as real), size(v));
    lemma_halved(size(w), size(v));
    assert(e * size(v) <= hw / (2int as real) + l * size(v)) by {
        lemma_halved(h, size(w) * size(v));
    }
    // The second rounding.
    let bound = size(w * v) / (2int as real) + e * size(v);
    assert(size(a * v) <= bound);
    lemma_scaled_order(size(w * v), h, one);
    lemma_one(size(w * v));
    lemma_commutes(size(w * v), h);
    lemma_scaled_order(h, size(a * v), size(w * v) + l * size(v));
    lemma_distributes(h, size(w * v), l * size(v));
    lemma_scaled_order(l, 0int as real, size(v));
    lemma_zero(l);
    lemma_scaled_order(h, 0int as real, size(w * v));
    lemma_zero(h);
    lemma_scaled_order(l * size(v), h, one);
    lemma_one(l * size(v));
    lemma_commutes(l * size(v), h);
    lemma_distributes(l, size(v), one);
    lemma_one(l);
}

/// Half of a factor is half of the product.
proof fn lemma_halved(a: real, b: real)
    ensures
        (a / (2int as real)) * b == (a * b) / (2int as real),
        a * (b / (2int as real)) == (a * b) / (2int as real),
{
    let (x, y) = (a / (2int as real), b / (2int as real));
    lemma_associates(2int as real, x, b);
    lemma_exchanges(a, 2int as real, y);
}

/// How far a weighted sum can be from half the weight times what its terms stand for.
pub open spec fn weighted_rounding(count: nat, c: nat, weight: real, whole: real) -> real {
    (2int as real) * (size(weight) * (tally_rounding(count, c, whole) + half_ulp() * whole)) + (
    4int as real) * (least() * (whole + tally_rounding(count, c, whole) + (1int as real)))
}

/// Half a weight times a sum that is off by little.
proof fn lemma_weighted_tally(weight: Double, sum: Double, exact: real, whole: real, off: real)
    requires
        half_weighted(weight, sum).finite(),
        size(value(sum) - exact) <= off,
        size(exact) <= whole,
    ensures
        size(value(half_weighted(weight, sum)) - (value(weight) * exact) / (2int as real)) <= (
        2int as real) * (size(value(weight)) * (off + half_ulp() * whole)) + (4int as real) * (
        least() * (whole + off + (1int as real))),
{
    lemma_half_ulp();
    lemma_least_is_tiny();
    lemma_half_weighted_near(weight, sum);
    let (h, l, one) = (half_ulp(), least(), 1int as real);
    let (w, v) = (value(weight), value(sum));
    lemma_distributes(w, v, exact);
    lemma_bounded_product(w, v - exact, size(w), off);
    lemma_bounded_product(w, v, size(w), whole + off);
    lemma_scaled_order(h, size(w * v), size(w) * (whole + off));
    lemma_exchanges(h, size(w), whole + off);
    lemma_distributes(h, whole, off);
    lemma_distributes(size(w), h * whole, h * off);
    lemma_distributes(size(w), off, h * whole);
    lemma_scaled_order(off, (10000int as real) * h, one);
    lemma_one(off);
    lemma_commutes(off, (10000int as real) * h);
    lemma_associates(10000int as real, h, off);
    lemma_scaled_order(size(w), h * off, off / (10000int as real));
    lemma_scaled_order(h, 0int as real, whole);
    lemma_zero(h);
    lemma_scaled_order(size(w), 0int as real, h * whole);
    lemma_scaled_order(size(w), 0int as real, off);
    lemma_zero(size(w));
    let part = off / (10000int as real);
    lemma_exchanges(size(w), 10000int as real, part);
    lemma_scaled_order(l, size(v) + one, whole + off + one);
    lemma_scaled_order(l, 0int as real, whole + off + one);
    lemma_zero(l);
}

/// The sum of the squares of all pose errors.
pub open spec fn errors_squared(knots: Seq<KnotEvaluation>) -> Seq<real> {
    Seq::new(knots.len(), |k: int| added(squares(knots[k].residual@), knots[k].residual@.len()))
}

/// The tracking cost is half the weight times the sum of the squares of all six components
/// of the pose errors of all knots, up to rounding.
pub proof fn lemma_tracking_merit_near(knots: Seq<KnotEvaluation>, weight: Double)
    requires
        knots.len() <= 1000000,
        forall|k: int| 0 <= k < knots.len() ==> (#[trigger] knots[k]).residual@.len() == 6,
        tracking_merit(knots, weight).finite(),
    ensures
        ({
            let all = added(errors_squared(knots), knots.len());
            size(value(tracking_merit(knots, weight)) - (value(weight) * all) / (2int as real))
                <= weighted_rounding(knots.len(), 14, value(weight), all)
        }),
{
    let values = Seq::new(knots.len(), |k: int| square_sum(knots[k].residual@));
    let terms = errors_squared(knots);
    lemma_half_weighted_near(weight, total(values));
    assert forall|k: int| 0 <= k < values.len() implies stands_for(
        #[trigger] values[k],
        terms[k],
        terms[k],
        14,
    ) by {
        assert(knots[k].residual@.len() == 6);
        lemma_finite_terms(values, k);
        lemma_squares_stand_for(knots[k].residual@);
    }
    lemma_tally_near(values, terms, terms, 14);
    lemma_weighted_tally(
        weight,
        total(values),
        added(terms, terms.len()),
        added(terms, terms.len()),
        tally_rounding(knots.len(), 14, added(terms, terms.len())),
    );
}

proof fn lemma_squares_stand_for(values: Seq<Double>)
    requires
        values.len() == 6,
        square_sum(values).finite(),
    ensures
        stands_for(
            square_sum(values),
            added(squares(values), 6),
            added(squares(values), 6),
            14,
        ),
{
    lemma_half_ulp();
    lemma_least_is_tiny();
    let terms = squares(values);
    lemma_square_sum_near(values);
    assert forall|i: int| 0 <= i < 6 implies #[trigger] terms[i] >= 0int as real by {
        lemma_square(value(values[i]));
    }
    lemma_positive_terms(terms, 6);
    let all = added(terms, 6);
    assert(sum_rounding(terms, 6) == (14int as real) * (half_ulp() * all) + (12int as real)
        * least());
    lemma_distributes(14int as real, half_ulp() * all, least());
}

/// The squares of the steps of all joints from one configuration to the next.
pub open spec fn steps_squared_of(q_k: Seq<Double>, q_k1: Seq<Double>) -> Seq<real> {
    Seq::new(
        q_k.len(),
        |j: int| (value(q_k1[j]) - value(q_k[j])) * (value(q_k1[j]) - value(q_k[j])),
    )
}

/// The sums of the squares of the steps, one for each interval.
pub open spec fn motion_squared(knots: Seq<Vec<Double>>) -> Seq<real> {
    Seq::new(
        (knots.len() - 1) as nat,
        |k: int| added(steps_squared_of(knots[k]@, knots[k + 1]@), knots[k]@.len()),
    )
}

/// The square of a rounded difference.
proof fn lemma_squared_step(a: Double, b: Double)
    requires
        b.difference(a).product(b.difference(a)).finite(),
    ensures
        ({
            let step = (value(b) - value(a)) * (value(b) - value(a));
            stands_for(b.difference(a).product(b.difference(a)), step, step, 4)
        }),
{
    lemma_half_ulp();
    lemma_least_is_tiny();
    let (h, l, one) = (half_ulp(), least(), 1int as real);
    let d = b.difference(a);
    lemma_parts_of_product(d, d);
    lemma_parts_of_sum(b, a.negated());
    lemma_value_of_negated(a);
    lemma_sum_error(b, a.negated());
    lemma_product_error(d, d);
    let (x, y) = (value(d), value(b) - value(a));
    let square = y * y;
    lemma_square(y);
    lemma_square(x);
    lemma_scaled_order(h, 0int as real, size(y));
    lemma_zero(h);
    lemma_bounded_product(x - y, y, h * size(y), size(y));
    lemma_bounded_product(x - y, x, h * size(y), size(x));
    lemma_scaled_order(size(y), h, one / (10000int as real));
    lemma_commutes(size(y), h);
    lemma_commutes(size(y), one / (10000int as real));
    lemma_size_of_product(y, y);
    lemma_associates(h, size(y), size(y));
    let hs = h * square;
    // |x² − y²| ≤ |x − y|·(|x| + |y|)
    lemma_distributes(x, x, y);
    lemma_distributes(y, x, y);
    lemma_commutes(x, y);
    lemma_commutes(x, x - y);
    lemma_commutes(y, x - y);
    lemma_scaled_order(h * size(y), size(x), ((11int as real) / (10int as real)) * size(y));
    lemma_exchanges(h * size(y), (11int as real) / (10int as real), size(y));
    assert(size(x * x - square) <= hs + ((11int as real) / (10int as real)) * hs);
    lemma_scaled_order(square, h, one / (10000int as real));
    lemma_commutes(square, h);
    lemma_scaled_order(square, 0int as real, h);
    lemma_zero(square);
    lemma_commutes(square, one / (10000int as real));
    lemma_scaled_order(h, x * x, ((11int as real) / (10int as real)) * square);
    lemma_exchanges(h, (11int as real) / (10int as real), square);
    lemma_distributes(4int as real, hs, l);
}

/// What a tally of `count` numbers stands for, as one number.
proof fn lemma_tally_stands_for(x: Double, exact: real, whole: real, count: nat, c: nat)
    requires
        size(value(x) - exact) <= tally_rounding(count, c, whole),
        size(exact) <= whole,
    ensures
        stands_for(x, exact, whole, 2 * count + c + 3 + 2 * (count * c)),
{
    lemma_half_ulp();
    lemma_least_is_tiny();
    let (h, l) = (half_ulp(), least());
    let (a, b) = ((2 * count + c + 3) as real, (2 * count + 2 * (count * c)) as real);
    assert(count * c >= 0) by (nonlinear_arith);
    let k = (2 * count + c + 3 + 2 * (count * c)) as real;
    lemma_distributes(k, h * whole, l);
    lemma_scaled_order(h, 0int as real, whole);
    lemma_zero(h);
    lemma_scaled_order(h * whole, a, k);
    lemma_commutes(h * whole, a);
    lemma_commutes(h * whole, k);
    lemma_scaled_order(l, b, k);
    lemma_commutes(l, b);
    lemma_commutes(l, k);
}

/// The smoothness cost is half the weight times the sum of the squares of the steps of all
/// `n` joints over all intervals, up to rounding.
pub proof fn lemma_smoothness_merit_near(knots: Seq<Vec<Double>>, weight: Double, n: nat)
    requires
        1 <= knots.len() <= 1000000,
        n <= 100000,
        knots_shaped(knots, n),
        smoothness_merit(knots, weight).finite(),
    ensures
        ({
            let all = added(motion_squared(knots), (knots.len() - 1) as nat);
            size(value(smoothness_merit(knots, weight)) - (value(weight) * all) / (2int as real))
                <= weighted_rounding((knots.len() - 1) as nat, 10 * n + 7, value(weight), all)
        }),
{
    let count = (knots.len() - 1) as nat;
    let values = Seq::new(count, |k: int| square_sum(step_between(knots[k]@, knots[k + 1]@)));
    let terms = motion_squared(knots);
    lemma_half_weighted_near(weight, total(values));
    assert forall|k: int| 0 <= k < values.len() implies stands_for(
        #[trigger] values[k],
        terms[k],
        terms[k],
        10 * n + 7,
    ) by {
        lemma_finite_terms(values, k);
        let (q_k, q_k1) = (knots[k]@, knots[k + 1]@);
        assert(q_k.len() == n);
        let steps = step_between(q_k, q_k1);
        let products = Seq::new(n, |j: int| steps[j].product(steps[j]));
        let exact = steps_squared_of(q_k, q_k1);
        assert(products =~= Seq::new(steps.len(), |j: int| steps[j].product(steps[j])));
        assert forall|j: int| 0 <= j < n implies stands_for(
            #[trigger] products[j],
            exact[j],
            exact[j],
            4,
        ) by {
            lemma_finite_terms(products, j);
            lemma_squared_step(q_k[j], q_k1[j]);
        }
        lemma_tally_near(products, exact, exact, 4);
        lemma_tally_stands_for(values[k], terms[k], terms[k], n, 4);
    }
    lemma_tally_near(values, terms, terms, 10 * n + 7);
    lemma_weighted_tally(
        weight,
        total(values),
        added(terms, terms.len()),
        added(terms, terms.len()),
        tally_rounding(count, 10 * n + 7, added(terms, terms.len())),
    );
}

/// The square of what is driven backward over each interval: nothing where the progress is
/// not negative.
pub open spec fn backward_squared(
    knots: Seq<Vec<Double>>,
    headings: Seq<Heading>,
    base: BaseIndices,
) -> Seq<real> {
    Seq::new(
        (knots.len() - 1) as nat,
        |k: int|
            {
                let progress = value(forward_progress(knots[k]@, knots[k + 1]@, base, headings[k]));
                if progress < 0int as real {
                    progress * progress
                } else {
                    0int as real
                }
            },
    )
}

/// The penalty on backward motion is half the weight times the sum of the squares of what is
/// driven backward over all intervals, up to rounding; and nothing without a weight.
pub proof fn lemma_backward_merit_near(
    knots: Seq<Vec<Double>>,
    headings: Seq<Heading>,
    base: BaseIndices,
    weight: Double,
)
    requires
        1 <= knots.len() <= 1000000,
        backward_merit(knots, headings, base, weight).finite(),
        weight.finite(),
        forall|k: int|
            0 <= k < knots.len() - 1 ==> (#[trigger] forward_progress(
                knots[k]@,
                knots[k + 1]@,
                base,
                headings[k],
            )).finite(),
    ensures
        ({
            let all = added(backward_squared(knots, headings, base), (knots.len() - 1) as nat);
            let merit = value(backward_merit(knots, headings, base, weight));
            &&& value(weight) > 0int as real ==> size(
                merit - (value(weight) * all) / (2int as real),
            ) <= weighted_rounding((knots.len() - 1) as nat, 1, value(weight), all)
            &&& value(weight) <= 0int as real ==> merit == 0int as real
        }),
{
    let zero = Double { bits: 0 };
    lemma_value_of_zero(zero);
    lemma_values_in_order(zero, weight);
    let count = (knots.len() - 1) as nat;
    let terms = backward_squared(knots, headings, base);
    if zero.less(weight) {
        let values = Seq::new(
            count,
            |k: int|
                backward_square(forward_progress(knots[k]@, knots[k + 1]@, base, headings[k])),
        );
        lemma_half_weighted_near(weight, total(values));
        assert forall|k: int| 0 <= k < values.len() implies stands_for(
            #[trigger] values[k],
            terms[k],
            terms[k],
            1,
        ) by {
            lemma_finite_terms(values, k);
            let progress = forward_progress(knots[k]@, knots[k + 1]@, base, headings[k]);
            assert(progress.finite());
            let back = progress.smaller(zero);
            lemma_values_in_order(zero, progress);
            lemma_values_in_order(progress, zero);
            lemma_product_rounds(back, back);
            lemma_square(value(back));
            lemma_zero(value(back));
            lemma_one(half_ulp() * terms[k] + least());
            lemma_commutes(1int as real, half_ulp() * terms[k] + least());
        }
        lemma_tally_near(values, terms, terms, 1);
        lemma_weighted_tally(
            weight,
            total(values),
            added(terms, terms.len()),
            added(terms, terms.len()),
            tally_rounding(count, 1, added(terms, terms.len())),
        );
    }
}

/// A number stands for its own value.
proof fn lemma_stands_for_itself(x: Double, exact: real)
    requires
        value(x) == exact,
        exact >= 0int as real,
    ensures
        stands_for(x, exact, exact, 0),
{
    lemma_half_ulp();
    lemma_least_is_tiny();
    lemma_zero(half_ulp() * exact + least());
    lemma_commutes(0int as real, half_ulp() * exact + least());
}

/// The sizes of the slips of all intervals.
pub open spec fn slip_sizes(
    knots: Seq<Vec<Double>>,
    headings: Seq<Heading>,
    base: BaseIndices,
) -> Seq<real> {
    Seq::new(
        (knots.len() - 1) as nat,
        |k: int| size(value(lateral_slip(knots[k]@, knots[k + 1]@, base, headings[k]))),
    )
}

/// The slip violation is the sum of the sizes of the slips of all intervals, up to rounding.
pub proof fn lemma_slip_violation_near(
    knots: Seq<Vec<Double>>,
    headings: Seq<Heading>,
    base: BaseIndices,
)
    requires
        1 <= knots.len() <= 1000000,
        slip_violation(knots, headings, base).finite(),
    ensures
        ({
            let all = added(slip_sizes(knots, headings, base), (knots.len() - 1) as nat);
            size(value(slip_violation(knots, headings, base)) - all) <= tally_rounding(
                (knots.len() - 1) as nat,
                0,
                all,
            )
        }),
{
    let values = Seq::new(
        (knots.len() - 1) as nat,
        |k: int| lateral_slip(knots[k]@, knots[k + 1]@, base, headings[k]).absolute(),
    );
    let terms = slip_sizes(knots, headings, base);
    assert forall|k: int| 0 <= k < values.len() implies stands_for(
        #[trigger] values[k],
        terms[k],
        terms[k],
        0,
    ) by {
        lemma_finite_terms(values, k);
        let slip = lateral_slip(knots[k]@, knots[k + 1]@, base, headings[k]);
        assert(slip.finite());
        lemma_value_of_absolute(slip);
        lemma_stands_for_itself(values[k], terms[k]);
    }
    lemma_tally_near(values, terms, terms, 0);
}

/// By how much the steps of all joints from one configuration to the next exceed a limit.
pub open spec fn excesses(q_k: Seq<Double>, q_k1: Seq<Double>, limit: real) -> Seq<real> {
    Seq::new(
        q_k.len(),
        |j: int| greater(size(value(q_k1[j]) - value(q_k[j])) - limit, 0int as real),
    )
}

/// The sizes of the steps of all joints, each with the limit.
pub open spec fn reaches(q_k: Seq<Double>, q_k1: Seq<Double>, limit: real) -> Seq<real> {
    Seq::new(q_k.len(), |j: int| size(value(q_k1[j]) - value(q_k[j])) + size(limit))
}

/// What exceeds a limit, rounded.
proof fn lemma_excess_stands_for(a: Double, b: Double, limit: Double)
    requires
        b.difference(a).absolute().difference(limit).finite(),
    ensures
        ({
            let step = size(value(b) - value(a));
            stands_for(
                b.difference(a).absolute().difference(limit).larger(Double { bits: 0 }),
                greater(step - value(limit), 0int as real),
                step + size(value(limit)),
                3,
            )
        }),
{
    lemma_half_ulp();
    lemma_least_is_tiny();
    let zero = Double { bits: 0 };
    let (h, l, one) = (half_ulp(), least(), 1int as real);
    let d = b.difference(a);
    let x = d.absolute().difference(limit);
    lemma_parts_of_sum(d.absolute(), limit.negated());
    assert(d.finite() && limit.finite());
    lemma_value_of_absolute(d);
    lemma_parts_of_sum(b, a.negated());
    lemma_value_of_negated(a);
    lemma_value_of_negated(limit);
    lemma_sum_error(b, a.negated());
    lemma_sum_error(d.absolute(), limit.negated());
    let step = size(value(b) - value(a));
    let share = step + size(value(limit));
    lemma_scaled_order(h, step, share);
    lemma_scaled_order(share, h, one);
    lemma_one(share);
    lemma_commutes(share, h);
    lemma_scaled_order(h, size(value(d.absolute()) - value(limit)), (2int as real) * share);
    lemma_exchanges(h, 2int as real, share);
    assert(size(value(x) - (step - value(limit))) <= (3int as real) * (h * share));
    lemma_value_of_zero(zero);
    lemma_values_in_order(x, zero);
    lemma_distributes(3int as real, h * share, l);
}

/// The sums of what exceeds the limit, one for each interval.
pub open spec fn speeding(knots: Seq<Vec<Double>>, limit: real) -> Seq<real> {
    Seq::new(
        (knots.len() - 1) as nat,
        |k: int| added(excesses(knots[k]@, knots[k + 1]@, limit), knots[k]@.len()),
    )
}

/// The sums of the sizes of the steps with the limit, one for each interval.
pub open spec fn reach_sums(knots: Seq<Vec<Double>>, limit: real) -> Seq<real> {
    Seq::new(
        (knots.len() - 1) as nat,
        |k: int| added(reaches(knots[k]@, knots[k + 1]@, limit), knots[k]@.len()),
    )
}

/// The velocity violation is the sum of what the steps of all `n` joints over all intervals
/// exceed the limit by, up to rounding.
pub proof fn lemma_velocity_violation_near(knots: Seq<Vec<Double>>, limit: Double, n: nat)
    requires
        1 <= knots.len() <= 1000000,
        n <= 100000,
        knots_shaped(knots, n),
        limit.finite(),
        forall|k: int, j: int|
            0 <= k < knots.len() - 1 && 0 <= j < n ==> (#[trigger] step_between(
                knots[k]@,
                knots[k + 1]@,
            )[j]).absolute().difference(limit).finite(),
        velocity_violation(knots, limit).finite(),
    ensures
        ({
            let count = (knots.len() - 1) as nat;
            let all = added(speeding(knots, value(limit)), count);
            size(value(velocity_violation(knots, limit)) - all) <= tally_rounding(
                count,
                8 * n + 6,
                added(reach_sums(knots, value(limit)), count),
            )
        }),
{
    let count = (knots.len() - 1) as nat;
    let values = Seq::new(
        count,
        |k: int| excess_sum(step_between(knots[k]@, knots[k + 1]@), limit),
    );
    let terms = speeding(knots, value(limit));
    let shares = reach_sums(knots, value(limit));
    assert forall|k: int| 0 <= k < values.len() implies stands_for(
        #[trigger] values[k],
        terms[k],
        shares[k],
        8 * n + 6,
    ) by {
        lemma_finite_terms(values, k);
        let (q_k, q_k1) = (knots[k]@, knots[k + 1]@);
        assert(q_k.len() == n);
        let steps = step_between(q_k, q_k1);
        let over = Seq::new(
            n,
            |j: int| steps[j].absolute().difference(limit).larger(Double { bits: 0 }),
        );
        let (exact, share) = (
            excesses(q_k, q_k1, value(limit)),
            reaches(q_k, q_k1, value(limit)),
        );
        assert(over =~= Seq::new(
            steps.len(),
            |j: int| steps[j].absolute().difference(limit).larger(Double { bits: 0 }),
        ));
        assert forall|j: int| 0 <= j < n implies stands_for(
            #[trigger] over[j],
            exact[j],
            share[j],
            3,
        ) by {
            assert(step_between(knots[k]@, knots[k + 1]@)[j].absolute().difference(limit).finite());
            lemma_excess_stands_for(q_k[j], q_k1[j], limit);
        }
        lemma_tally_near(over, exact, share, 3);
        lemma_tally_stands_for(values[k], terms[k], shares[k], n, 3);
    }
    lemma_tally_near(values, terms, shares, 8 * n + 6);
}

/// The sizes of a list.
pub open spec fn sizes_of(values: Seq<Double>) -> Seq<real> {
    Seq::new(values.len(), |i: int| size(value(values[i])))
}

/// The sums of the sizes of the components of the pose errors, one for each knot.
pub open spec fn error_sizes(knots: Seq<KnotEvaluation>) -> Seq<real> {
    Seq::new(knots.len(), |k: int| added(sizes_of(knots[k].residual@), knots[k].residual@.len()))
}

/// The pose violation is the sum of the sizes of all six components of the pose errors of
/// all knots, up to rounding.
pub proof fn lemma_pose_violation_near(knots: Seq<KnotEvaluation>)
    requires
        knots.len() <= 1000000,
        forall|k: int| 0 <= k < knots.len() ==> (#[trigger] knots[k]).residual@.len() == 6,
        pose_violation(knots).finite(),
    ensures
        ({
            let all = added(error_sizes(knots), knots.len());
            size(value(pose_violation(knots)) - all) <= tally_rounding(knots.len(), 15, all)
        }),
{
    let values = Seq::new(knots.len(), |k: int| size_sum(knots[k].residual@));
    let terms = error_sizes(knots);
    assert forall|k: int| 0 <= k < values.len() implies stands_for(
        #[trigger] values[k],
        terms[k],
        terms[k],
        15,
    ) by {
        lemma_finite_terms(values, k);
        let residual = knots[k].residual@;
        assert(residual.len() == 6);
        let parts = Seq::new(residual.len(), |i: int| residual[i].absolute());
        let exact = sizes_of(residual);
        assert forall|i: int| 0 <= i < 6 implies stands_for(
            #[trigger] parts[i],
            exact[i],
            exact[i],
            0,
        ) by {
            lemma_finite_terms(parts, i);
            assert(residual[i].finite());
            lemma_value_of_absolute(residual[i]);
            lemma_stands_for_itself(parts[i], exact[i]);
        }
        lemma_tally_near(parts, exact, exact, 0);
        lemma_tally_stands_for(values[k], terms[k], terms[k], 6, 0);
    }
    lemma_tally_near(values, terms, terms, 15);
}

/// The weight of the violations in the merit.
proof fn lemma_value_of_penalty()
    ensures
        value(Double { bits: MERIT_PENALTY }) == 10000int as real,
        (Double { bits: MERIT_PENALTY }).finite(),
{
    lemma2_to64();
    lemma2_to64_rest();
    assert(significand(MERIT_PENALTY as nat) == 10000 * 0x80_0000_0000);
    assert(exponent(MERIT_PENALTY as nat) == 1035);
    lemma_pow2_adds(39, 1035);
    lemma_pow2_pos(UNIT_EXPONENT as nat);
    let u = pow2(UNIT_EXPONENT as nat);
    let n = (Double { bits: MERIT_PENALTY }).scaled();
    assert(n == 10000 * u) by (nonlinear_arith)
        requires
            n == (10000 * 0x80_0000_0000) * pow2(1035),
            u == 0x80_0000_0000 * pow2(1035),
    ;
    assert((n as real) / (u as real) == 10000int as real) by (nonlinear_arith)
        requires
            n == 10000 * u,
            u > 0,
    ;
}

/// The merit of an iterate is its cost and ten thousand times its violations, up to
/// rounding: the tracking cost in soft mode, the smoothness cost and the penalty on backward
/// motion; the slip, the speed beyond the limit and, in hard mode, the pose error.
pub proof fn lemma_merit_adds_up(
    knots: Seq<Vec<Double>>,
    evaluation: Evaluation,
    config: TrajectoryConfig,
    base: BaseIndices,
)
    requires
        merit_of(knots, evaluation, config, base).finite(),
    ensures
        ({
            let tracking = if config.ee_tracking == EeTracking::Soft {
                value(tracking_merit(evaluation.knots@, config.ee_weight))
            } else {
                0int as real
            };
            let smoothness = value(smoothness_merit(knots, config.smoothness_weight));
            let backward = value(
                backward_merit(knots, evaluation.headings@, base, config.backward_weight),
            );
            let slip = value(slip_violation(knots, evaluation.headings@, base));
            let speed = value(
                velocity_violation(knots, config.max_joint_velocity.product(config.dt)),
            );
            let pose = if config.ee_tracking == EeTracking::Hard {
                value(pose_violation(evaluation.knots@))
            } else {
                0int as real
            };
            let all = tracking + smoothness + backward + (10000int as real) * (slip + speed + pose);
            let sizes = size(tracking) + size(smoothness) + size(backward) + (10000int as real) * (
            size(slip) + size(speed) + size(pose));
            size(value(merit_of(knots, evaluation, config, base)) - all) <= (8int as real) * (
            half_ulp() * sizes) + (2int as real) * least()
        }),
{
    lemma_half_ulp();
    lemma_value_of_zero(Double { bits: 0 });
    let penalty = Double { bits: MERIT_PENALTY };
    let first = if config.ee_tracking == EeTracking::Soft {
        tracking_merit(evaluation.knots@, config.ee_weight)
    } else {
        Double { bits: 0 }
    };
    let second = smoothness_merit(knots, config.smoothness_weight);
    let third = backward_merit(knots, evaluation.headings@, base, config.backward_weight);
    let cost = first.sum(second).sum(third);
    let slip = slip_violation(knots, evaluation.headings@, base);
    let speed = velocity_violation(knots, config.max_joint_velocity.product(config.dt));
    let motion = slip.sum(speed);
    let pose = pose_violation(evaluation.knots@);
    let hard = config.ee_tracking == EeTracking::Hard;
    let violation = if hard {
        motion.sum(pose)
    } else {
        motion
    };
    let weighted = penalty.product(violation);
    assert(merit_of(knots, evaluation, config, base) == cost.sum(weighted));
    lemma_parts_of_sum(cost, weighted);
    lemma_parts_of_product(penalty, violation);
    let (a, b, c) = (value(first), value(second), value(third));
    let none = Double { bits: 0 };
    let last = if hard {
        pose
    } else {
        none
    };
    let (d, e, f) = (value(slip), value(speed), value(last));
    let paid = size(a) + size(b) + size(c);
    let broken = size(d) + size(e) + size(f);
    lemma_sum_of_three(first, second, third);
    if hard {
        lemma_sum_of_three(slip, speed, pose);
    } else {
        lemma_sum_of_two(slip, speed);
    }
    lemma_cost_and_penalty(cost, violation, a + b + c, d + e + f, paid, broken);
}

/// The rounded sum of two numbers.
proof fn lemma_sum_of_two(a: Double, b: Double)
    requires
        a.sum(b).finite(),
    ensures
        size(value(a.sum(b)) - (value(a) + value(b))) <= (3int as real) * (half_ulp() * (size(
            value(a),
        ) + size(value(b)))),
{
    lemma_half_ulp();
    lemma_sum_error(a, b);
    let s = size(value(a)) + size(value(b));
    lemma_scaled_order(half_ulp(), size(value(a) + value(b)), s);
    lemma_scaled_order(half_ulp(), 0int as real, s);
    lemma_zero(half_ulp());
}

/// The rounded sum of three numbers.
pub(crate) proof fn lemma_sum_of_three(a: Double, b: Double, c: Double)
    requires
        a.sum(b).sum(c).finite(),
    ensures
        size(value(a.sum(b).sum(c)) - (value(a) + value(b) + value(c))) <= (3int as real) * (
        half_ulp() * (size(value(a)) + size(value(b)) + size(value(c)))),
{
    lemma_half_ulp();
    lemma_parts_of_sum(a.sum(b), c);
    lemma_sum_error(a, b);
    lemma_sum_error(a.sum(b), c);
    let h = half_ulp();
    let s = size(value(a)) + size(value(b)) + size(value(c));
    lemma_tiny(s);
    lemma_tiny(h * s);
    lemma_scaled_order(h, size(value(a) + value(b)), s);
    lemma_scaled_order(h, size(value(a.sum(b)) + value(c)), s + h * s);
    lemma_distributes(h, s, h * s);
}

/// A cost and ten thousand times a violation, rounded.
proof fn lemma_cost_and_penalty(
    cost: Double,
    violation: Double,
    exact: real,
    broken: real,
    sizes: real,
    more: real,
)
    requires
        cost.sum((Double { bits: MERIT_PENALTY }).product(violation)).finite(),
        size(value(cost) - exact) <= (3int as real) * (half_ulp() * sizes),
        size(value(violation) - broken) <= (3int as real) * (half_ulp() * more),
        size(exact) <= sizes,
        size(broken) <= more,
    ensures
        size(
            value(cost.sum((Double { bits: MERIT_PENALTY }).product(violation))) - (exact + (
            10000int as real) * broken),
        ) <= (8int as real) * (half_ulp() * (sizes + (10000int as real) * more)) + (2int as real)
            * least(),
{
    lemma_half_ulp();
    lemma_least_is_tiny();
    lemma_value_of_penalty();
    let (h, l, one) = (half_ulp(), least(), 1int as real);
    let weighted = (Double { bits: MERIT_PENALTY }).product(violation);
    lemma_parts_of_sum(cost, weighted);
    lemma_product_error(Double { bits: MERIT_PENALTY }, violation);
    lemma_sum_error(cost, weighted);
    let v = value(violation);
    let all = sizes + (10000int as real) * more;
    let (hs, hm, ha) = (h * sizes, h * more, h * all);
    lemma_tiny(sizes);
    lemma_tiny(more);
    lemma_tiny(hm);
    lemma_distributes(h, sizes, (10000int as real) * more);
    lemma_exchanges(h, 10000int as real, more);
    assert(ha == hs + (10000int as real) * hm);
    lemma_scaled_order(
        h,
        size((10000int as real) * v),
        (10000int as real) * (more + (3int as real) * hm),
    );
    lemma_exchanges(h, 10000int as real, more + (3int as real) * hm);
    lemma_distributes(h, more, (3int as real) * hm);
    lemma_exchanges(h, 3int as real, hm);
    assert(size(value(weighted) - (10000int as real) * broken) <= (41000int as real) * hm + l);
    lemma_scaled_order(h, size(value(cost) + value(weighted)), (2int as real) * all + l);
    lemma_distributes(h, (2int as real) * all, l);
    lemma_exchanges(h, 2int as real, all);
    lemma_scaled_order(l, h, one);
    lemma_one(l);
    lemma_commutes(l, h);
}

} // verus!
