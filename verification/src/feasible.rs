//! Which steps a subproblem allows: what its velocity rows, its box and its equality
//! rows mean for the knots that a step leads to.

use crate::arithmetic::lemma_difference_sign;
use crate::configs::TrajectoryConfig;
use crate::constraints::{progressive_budget, velocity_bounds, velocity_limit, velocity_row};
use crate::cost::lemma_block_within;
use crate::diagnostics::BaseIndices;
use crate::double::{lemma_order_of_values, Double, MINUS_ONE, ONE, UNIT_EXPONENT};
use crate::error::{
    half_ulp, least, lemma_distributes, lemma_half_ulp, lemma_least, lemma_product_error,
    lemma_scaled_order, lemma_sum_error, lemma_value_of_zero, size, value,
};
use crate::finiteness::lemma_parts_of_sum;
use crate::kinematics::{IkSolve, PoseEvaluation};
use crate::linearization::Evaluation;
use crate::qp::QuadraticProgram;
use crate::range::{lemma_product_within, lemma_sum_within, nonillion, within};
use crate::reals::{
    lemma_associates, lemma_commutes, lemma_exchanges, lemma_minus, lemma_one, lemma_zero,
};
use crate::slip::{lemma_value_of_negated, lemma_value_of_one};
use crate::subproblem::models;
use vstd::arithmetic::div_mod::lemma_fundamental_div_mod_converse;
use vstd::arithmetic::power2::{lemma_pow2_pos, pow2};
use vstd::prelude::*;

verus! {

/// The first `count` terms of a row times a step.
pub open spec fn applied(row: Seq<Double>, x: Seq<real>, count: nat) -> real
    decreases count,
{
    if count == 0 {
        0int as real
    } else {
        applied(row, x, (count - 1) as nat) + value(row[count - 1]) * x[count - 1]
    }
}

/// A row with entries in two places only.
proof fn lemma_applied_pair(row: Seq<Double>, x: Seq<real>, a: int, b: int, count: nat)
    requires
        a != b,
        count <= row.len(),
        forall|c: int|
            0 <= c < row.len() && c != a && c != b ==> value(#[trigger] row[c]) == 0int as real,
    ensures
        applied(row, x, count) == (if 0 <= a < count {
            value(row[a]) * x[a]
        } else {
            0int as real
        }) + (if 0 <= b < count {
            value(row[b]) * x[b]
        } else {
            0int as real
        }),
    decreases count,
{
    if count > 0 {
        let c = count - 1;
        lemma_applied_pair(row, x, a, b, c as nat);
        lemma_zero(x[c]);
        lemma_commutes(x[c], 0int as real);
    }
}

/// Where the rows of an interval and a joint stand.
proof fn lemma_row_place(k: int, j: int, n: int)
    requires
        0 <= j < n,
        0 <= k,
    ensures
        ({
            let up = 2 * (k * n + j);
            &&& up / 2 / n == k && up / 2 % n == j && up % 2 == 0
            &&& (up + 1) / 2 / n == k && (up + 1) / 2 % n == j && (up + 1) % 2 == 1
            &&& up / 2 == k * n + j && (up + 1) / 2 == k * n + j
        }),
{
    lemma_fundamental_div_mod_converse(k * n + j, n, k, j);
}

/// Finite numbers are ordered as their values are.
pub proof fn lemma_values_in_order(a: Double, b: Double)
    requires
        a.finite(),
        b.finite(),
    ensures
        a.less(b) <==> value(a) < value(b),
        a.at_most(b) <==> value(a) <= value(b),
{
    lemma_order_of_values(a, b);
    lemma_pow2_pos(UNIT_EXPONENT as nat);
    let u = pow2(UNIT_EXPONENT as nat) as real;
    let (x, y) = (a.scaled() as real, b.scaled() as real);
    if x < y {
        assert(x / u < y / u) by (nonlinear_arith)
            requires
                x < y,
                u > 0int as real,
        ;
    } else if x > y {
        assert(x / u > y / u) by (nonlinear_arith)
            requires
                x > y,
                u > 0int as real,
        ;
    }
}

/// The larger of two reals.
pub open spec fn greater(a: real, b: real) -> real {
    if a < b {
        b
    } else {
        a
    }
}

/// The size of a finite number.
pub proof fn lemma_value_of_absolute(x: Double)
    requires
        x.finite(),
    ensures
        x.absolute().finite(),
        value(x.absolute()) == size(value(x)),
{
    lemma_value_of_negated(x);
    lemma_value_of_zero(Double { bits: 0 });
    lemma_values_in_order(x, Double { bits: 0 });
    if x.negative() {
        assert(x.absolute() == x.negated());
        if x.zero() {
            lemma_value_of_zero(x);
        }
    } else {
        assert(x.absolute() == x);
        lemma_order_of_values(x, Double { bits: 0 });
    }
}

/// How fast an interval may be driven: as the limit says, or so much slower than before
/// as the trust radius allows.
pub open spec fn allowance(difference: real, radius: real, limit: real) -> real {
    greater(size(difference) - radius, limit)
}

/// What rounding adds to or takes off the allowance.
pub open spec fn allowance_rounding(difference: real, radius: real, limit: real) -> real {
    (16int as real) * (half_ulp() * (size(difference) + size(radius) + size(limit))) + (8int as real)
        * least()
}

/// How much a sum of two rounds to.
proof fn lemma_sum_near(a: Double, b: Double, ma: real, mb: real, most: real)
    requires
        within(a, ma),
        within(b, mb),
        ma + mb <= nonillion(),
        size(value(a) + value(b)) <= most,
    ensures
        a.sum(b).finite(),
        size(value(a.sum(b)) - (value(a) + value(b))) <= half_ulp() * most,
{
    lemma_half_ulp();
    lemma_sum_within(a, b, ma, mb);
    lemma_sum_error(a, b);
    lemma_scaled_order(half_ulp(), size(value(a) + value(b)), most);
}

/// The difference between two knots, and the limit.
proof fn lemma_parts_of_budget(
    from: Double,
    to: Double,
    velocity: Double,
    dt: Double,
    s: real,
)
    requires
        within(from, 1000000000int as real),
        within(to, 1000000000int as real),
        within(velocity, 1000000000int as real),
        within(dt, 1000000000int as real),
        size(value(to) - value(from)) + size(value(velocity) * value(dt)) <= s,
    ensures
        within(to.difference(from), 4000000000int as real),
        size(value(to.difference(from)) - (value(to) - value(from))) <= half_ulp() * s,
        within(velocity.product(dt), 3000000000000000000int as real),
        size(value(velocity.product(dt)) - value(velocity) * value(dt)) <= half_ulp() * s + least(),
{
    lemma_half_ulp();
    lemma_least();
    let billion = 1000000000int as real;
    lemma_value_of_negated(from);
    lemma_sum_within(to, from.negated(), billion, billion);
    lemma_sum_near(to, from.negated(), billion, billion, s);
    lemma_product_within(velocity, dt, billion, billion);
    lemma_product_error(velocity, dt);
    lemma_scaled_order(half_ulp(), size(value(velocity) * value(dt)), s);
}

/// The budget of a difference and a limit that are known up to rounding.
proof fn lemma_budget_near(d: Double, radius: Double, limit: Double, x: real, l: real, s: real)
    requires
        within(d, 4000000000int as real),
        within(radius, 1000000000int as real),
        within(limit, 3000000000000000000int as real),
        size(value(d) - x) <= half_ulp() * s,
        size(value(limit) - l) <= half_ulp() * s + least(),
        size(x) + size(value(radius)) + size(l) <= s,
    ensures
        within(progressive_budget(d, radius, limit), 3000000000000000000int as real),
        size(value(progressive_budget(d, radius, limit)) - allowance(x, value(radius), l))
            <= (3int as real) * (half_ulp() * s) + least(),
{
    lemma_half_ulp();
    lemma_least();
    let (h, t) = (half_ulp(), least());
    let r = value(radius);
    lemma_scaled_order(s, h, 1int as real);
    lemma_one(s);
    lemma_commutes(h, s);
    lemma_value_of_absolute(d);
    lemma_value_of_negated(radius);
    lemma_sum_within(
        d.absolute(),
        radius.negated(),
        4000000000int as real,
        1000000000int as real,
    );
    lemma_sum_near(
        d.absolute(),
        radius.negated(),
        4000000000int as real,
        1000000000int as real,
        (2int as real) * s,
    );
    let slower = d.absolute().difference(radius);
    lemma_exchanges(h, 2int as real, s);
    assert(size(value(slower) - (size(x) - r)) <= (3int as real) * (h * s));
    lemma_values_in_order(slower, limit);
}

/// The right-hand sides of the two rows of one joint over one interval.
proof fn lemma_bounds_of_a_pair(
    from: Double,
    to: Double,
    radius: Double,
    velocity: Double,
    dt: Double,
)
    requires
        within(from, 1000000000int as real),
        within(to, 1000000000int as real),
        within(radius, 1000000000int as real),
        within(velocity, 1000000000int as real),
        within(dt, 1000000000int as real),
    ensures
        ({
            let d = to.difference(from);
            let budget = progressive_budget(d, radius, velocity.product(dt));
            let (up, down) = (budget.difference(d), budget.sum(d));
            let (x, r, l) = (value(to) - value(from), value(radius), value(velocity) * value(dt));
            &&& d.finite() && budget.finite() && up.finite() && down.finite()
            &&& size(value(up) - (allowance(x, r, l) - x)) <= allowance_rounding(x, r, l)
            &&& size(value(down) - (allowance(x, r, l) + x)) <= allowance_rounding(x, r, l)
        }),
{
    let (x, r, l) = (value(to) - value(from), value(radius), value(velocity) * value(dt));
    let s = size(x) + size(r) + size(l);
    let (d, limit) = (to.difference(from), velocity.product(dt));
    lemma_parts_of_budget(from, to, velocity, dt, s);
    lemma_budget_near(d, radius, limit, x, l, s);
    lemma_sides_near(progressive_budget(d, radius, limit), d, allowance(x, r, l), x, s);
}

/// The two sides of a budget that is known up to rounding.
proof fn lemma_sides_near(budget: Double, d: Double, most: real, x: real, s: real)
    requires
        within(budget, 3000000000000000000int as real),
        within(d, 4000000000int as real),
        size(value(budget) - most) <= (3int as real) * (half_ulp() * s) + least(),
        size(value(d) - x) <= half_ulp() * s,
        size(most) <= s,
        size(x) <= s,
    ensures
        budget.difference(d).finite(),
        budget.sum(d).finite(),
        size(value(budget.difference(d)) - (most - x)) <= (16int as real) * (half_ulp() * s) + (
        8int as real) * least(),
        size(value(budget.sum(d)) - (most + x)) <= (16int as real) * (half_ulp() * s) + (
        8int as real) * least(),
{
    lemma_half_ulp();
    lemma_least();
    let (h, t) = (half_ulp(), least());
    let (huge, four) = (3000000000000000000int as real, 4000000000int as real);
    lemma_scaled_order(s, (10000int as real) * h, 1int as real);
    lemma_one(s);
    lemma_commutes(s, (10000int as real) * h);
    lemma_associates(10000int as real, h, s);
    lemma_value_of_negated(d);
    let bound = (4int as real) * s + t;
    lemma_sum_near(budget, d, huge, four, bound);
    lemma_sum_near(budget, d.negated(), huge, four, bound);
    lemma_distributes(h, (4int as real) * s, t);
    lemma_exchanges(h, 4int as real, s);
    lemma_scaled_order(t, h, 1int as real);
    lemma_one(t);
    lemma_commutes(t, h);
}

/// What is asked of the numbers that a velocity row is made of: none is beyond 1e9.
pub open spec fn speeds_within(
    knots: Seq<Vec<Double>>,
    config: TrajectoryConfig,
    radius: Double,
    k: int,
    j: int,
) -> bool {
    let most = 1000000000int as real;
    &&& within(knots[k]@[j], most) && within(knots[k + 1]@[j], most)
    &&& within(radius, most)
    &&& within(config.max_joint_velocity, most) && within(config.dt, most)
}

/// The velocity rows of an interval and a joint bound the speed between the two knots
/// that a step leads to. A step that satisfies both rows leaves them no further apart
/// than the allowance, and one that leaves them so satisfies both, up to rounding.
pub proof fn lemma_velocity_rows_bound_the_speed(
    program: QuadraticProgram,
    knots: Seq<Vec<Double>>,
    evaluation: Evaluation,
    config: TrajectoryConfig,
    base: BaseIndices,
    lower: Seq<Double>,
    upper: Seq<Double>,
    radius: Double,
    scale: Double,
    k: int,
    j: int,
    x: Seq<real>,
)
    requires
        models(program, knots, evaluation, config, base, lower, upper, radius, scale),
        0 <= k < knots.len() - 1,
        0 <= j < lower.len(),
        x.len() == knots.len() * lower.len(),
        speeds_within(knots, config, radius, k, j),
    ensures
        ({
            let n = lower.len() as int;
            let (up, down) = (2 * (k * n + j), 2 * (k * n + j) + 1);
            let (here, next) = (k * n + j, (k + 1) * n + j);
            let difference = value(knots[k + 1]@[j]) - value(knots[k]@[j]);
            let after = (value(knots[k + 1]@[j]) + x[next]) - (value(knots[k]@[j]) + x[here]);
            let limit = value(config.max_joint_velocity) * value(config.dt);
            let most = allowance(difference, value(radius), limit);
            let rounding = allowance_rounding(difference, value(radius), limit);
            let holds = |r: int|
                applied(program.a_in@[r], x, x.len()) <= value(program.b_in@[r]);
            &&& 0 <= up && down < program.b_in@.len() && program.a_in@.len() == program.b_in@.len()
            &&& holds(up) && holds(down) ==> size(after) <= most + rounding
            &&& size(after) <= most - rounding ==> holds(up) && holds(down)
        }),
{
    let n = lower.len() as int;
    let count = knots.len() as int;
    let (up, down) = (2 * (k * n + j), 2 * (k * n + j) + 1);
    let (here, next) = (k * n + j, (k + 1) * n + j);
    lemma_row_place(k, j, n);
    lemma_block_within(k, count - 1, n);
    lemma_block_within(k, count, n);
    lemma_block_within(k + 1, count, n);
    lemma_bounds_of_a_pair(
        knots[k]@[j],
        knots[k + 1]@[j],
        radius,
        config.max_joint_velocity,
        config.dt,
    );
    lemma_value_of_one();
    lemma_value_of_minus_one();
    lemma_value_of_zero(Double { bits: 0 });
    let (rise, fall) = (program.a_in@[up], program.a_in@[down]);
    assert(rise == velocity_row((count * n) as nat, n as nat, here, true));
    assert(fall == velocity_row((count * n) as nat, n as nat, here, false));
    lemma_applied_pair(rise, x, next, here, x.len());
    lemma_applied_pair(fall, x, next, here, x.len());
    lemma_one(x[here]);
    lemma_one(x[next]);
    lemma_minus(1int as real, x[here]);
    lemma_minus(1int as real, x[next]);
}

/// Finite numbers add up to a number.
pub(crate) proof fn lemma_sum_is_a_number(a: Double, b: Double)
    requires
        a.finite(),
        b.finite(),
    ensures
        !a.sum(b).nan(),
{
    reveal(Double::sum);
}

/// The value of minus one.
pub(crate) proof fn lemma_value_of_minus_one()
    ensures
        value(Double { bits: MINUS_ONE }) == -(1int as real),
{
    lemma_value_of_one();
    lemma_value_of_negated(Double { bits: ONE });
    assert((Double { bits: ONE }).negated() == (Double { bits: MINUS_ONE }));
}

/// Standing still satisfies the velocity rows of an interval whose knots are no further
/// apart than the limit, to the last bit.
pub proof fn lemma_standing_still_keeps_the_speed(
    program: QuadraticProgram,
    knots: Seq<Vec<Double>>,
    evaluation: Evaluation,
    config: TrajectoryConfig,
    base: BaseIndices,
    lower: Seq<Double>,
    upper: Seq<Double>,
    radius: Double,
    scale: Double,
    k: int,
    j: int,
)
    requires
        models(program, knots, evaluation, config, base, lower, upper, radius, scale),
        0 <= k < knots.len() - 1,
        0 <= j < lower.len(),
        speeds_within(knots, config, radius, k, j),
        knots[k + 1]@[j].difference(knots[k]@[j]).absolute().at_most(velocity_limit(config)),
    ensures
        ({
            let up = 2 * (k * lower.len() as int + j);
            let zero = Double { bits: 0 };
            &&& zero.at_most(program.b_in@[up])
            &&& zero.at_most(program.b_in@[up + 1])
        }),
{
    let n = lower.len() as int;
    let up = 2 * (k * n + j);
    lemma_row_place(k, j, n);
    lemma_block_within(k, knots.len() - 1, n);
    let d = knots[k + 1]@[j].difference(knots[k]@[j]);
    let limit = velocity_limit(config);
    let budget = progressive_budget(d, radius, limit);
    lemma_bounds_of_a_pair(
        knots[k]@[j],
        knots[k + 1]@[j],
        radius,
        config.max_joint_velocity,
        config.dt,
    );
    lemma_parts_of_sum(budget, d);
    lemma_value_of_absolute(d);
    lemma_value_of_negated(d);
    let billion = 1000000000int as real;
    lemma_product_within(config.max_joint_velocity, config.dt, billion, billion);
    lemma_values_in_order(d.absolute(), limit);
    assert(limit.at_most(budget) || budget == limit);
    lemma_values_in_order(limit, budget);
    lemma_values_in_order(d, budget);
    lemma_values_in_order(d.negated(), budget);
    lemma_sum_is_a_number(d, budget.negated());
    lemma_sum_is_a_number(d.negated(), budget.negated());
    lemma_difference_sign(d, budget);
    lemma_difference_sign(d.negated(), budget);
    assert(d.negated().negated() == d);
}

/// The velocity rows of an interval rest on its two knots alone: moving any other knot
/// changes neither right-hand side.
pub proof fn lemma_velocity_rows_are_local(
    knots: Seq<Vec<Double>>,
    others: Seq<Vec<Double>>,
    n: nat,
    radius: Double,
    limit: Double,
    k: int,
    j: int,
)
    requires
        knots.len() == others.len(),
        0 <= k < knots.len() - 1,
        0 <= j < n,
        knots[k]@[j] == others[k]@[j],
        knots[k + 1]@[j] == others[k + 1]@[j],
    ensures
        ({
            let up = 2 * (k * n as int + j);
            let (bounds, same) = (
                velocity_bounds(knots, n, radius, limit),
                velocity_bounds(others, n, radius, limit),
            );
            &&& 0 <= up && up + 1 < bounds.len()
            &&& bounds[up] == same[up] && bounds[up + 1] == same[up + 1]
        }),
{
    lemma_row_place(k, j, n as int);
    lemma_block_within(k, knots.len() - 1, n as int);
}

/// What rounding adds to or takes off a bound that is taken from where a joint is.
pub open spec fn bound_rounding(bound: Double, at: Double) -> real {
    half_ulp() * (size(value(bound)) + size(value(at)))
}

/// A bound as seen from where a joint is.
pub(crate) proof fn lemma_bound_from_here(bound: Double, at: Double)
    requires
        within(bound, 1000000000int as real),
        within(at, 1000000000int as real),
    ensures
        bound.difference(at).finite(),
        size(value(bound.difference(at)) - (value(bound) - value(at))) <= bound_rounding(bound, at),
{
    let billion = 1000000000int as real;
    lemma_value_of_negated(at);
    lemma_sum_near(bound, at.negated(), billion, billion, size(value(bound)) + size(value(at)));
}

/// The box of a subproblem keeps a joint in its limits and in the trust region. A step
/// that is in the box leads to a position that keeps the limits, up to rounding, and is no
/// longer than the trust radius; and a step that leads there by more than the rounding,
/// and is no longer than the radius, is in the box.
pub proof fn lemma_box_keeps_the_limits(
    program: QuadraticProgram,
    knots: Seq<Vec<Double>>,
    evaluation: Evaluation,
    config: TrajectoryConfig,
    base: BaseIndices,
    lower: Seq<Double>,
    upper: Seq<Double>,
    radius: Double,
    scale: Double,
    k: int,
    j: int,
    x: real,
)
    requires
        models(program, knots, evaluation, config, base, lower, upper, radius, scale),
        0 <= k < knots.len(),
        0 <= j < lower.len(),
        within(knots[k]@[j], 1000000000int as real),
        within(lower[j], 1000000000int as real),
        within(upper[j], 1000000000int as real),
        within(radius, 1000000000int as real),
    ensures
        ({
            let i = k * lower.len() as int + j;
            let at = knots[k]@[j];
            let after = value(at) + x;
            let inside = value(program.lb@[i]) <= x && x <= value(program.ub@[i]);
            let (low, high) = (bound_rounding(lower[j], at), bound_rounding(upper[j], at));
            &&& 0 <= i < program.lb@.len() && program.lb@.len() == program.ub@.len()
            &&& program.lb@[i].finite() && program.ub@[i].finite()
            &&& inside ==> {
                &&& value(lower[j]) - low <= after && after <= value(upper[j]) + high
                &&& -value(radius) <= x && x <= value(radius)
            }
            &&& value(lower[j]) + low <= after && after <= value(upper[j]) - high && -value(radius)
                <= x && x <= value(radius) ==> inside
        }),
{
    let n = lower.len() as int;
    let i = k * n + j;
    let at = knots[k]@[j];
    lemma_block_within(k, knots.len() as int, n);
    lemma_fundamental_div_mod_converse(i, n, k, j);
    lemma_bound_from_here(lower[j], at);
    lemma_bound_from_here(upper[j], at);
    lemma_value_of_negated(radius);
    lemma_values_in_order(lower[j].difference(at), radius.negated());
    lemma_values_in_order(upper[j].difference(at), radius);
    lemma_values_in_order(radius, upper[j].difference(at));
}

/// The step of an inverse-kinematics program keeps a joint in its limits: a step that is in
/// the box leads to a position that keeps them, up to rounding, and one that leads there by
/// more than the rounding is in the box.
pub proof fn lemma_joint_step_keeps_the_limits(
    solve: IkSolve,
    program: QuadraticProgram,
    positions: Seq<Double>,
    evaluation: PoseEvaluation,
    j: int,
    x: real,
)
    requires
        solve.models(program, positions, evaluation),
        solve.lower@.len() == solve.upper@.len(),
        0 <= j < solve.lower@.len(),
        within(positions[j], 1000000000int as real),
        within(solve.lower@[j], 1000000000int as real),
        within(solve.upper@[j], 1000000000int as real),
    ensures
        ({
            let at = positions[j];
            let (least_value, most_value) = (value(solve.lower@[j]), value(solve.upper@[j]));
            let after = value(at) + x;
            let inside = value(program.lb@[j]) <= x && x <= value(program.ub@[j]);
            let low = bound_rounding(solve.lower@[j], at);
            let high = bound_rounding(solve.upper@[j], at);
            &&& inside ==> least_value - low <= after && after <= most_value + high
            &&& least_value + low <= after && after <= most_value - high ==> inside
        }),
{
    lemma_bound_from_here(solve.lower@[j], positions[j]);
    lemma_bound_from_here(solve.upper@[j], positions[j]);
}

/// A row with an entry in one place.
pub(crate) proof fn lemma_applied_single(row: Seq<Double>, x: Seq<real>, place: int, count: nat)
    requires
        count <= row.len(),
        0 <= place < row.len(),
        forall|i: int| 0 <= i < count && i != place ==> value(#[trigger] row[i]) == 0int as real,
    ensures
        applied(row, x, count) == if place < count {
            value(row[place]) * x[place]
        } else {
            0int as real
        },
    decreases count,
{
    if count > 0 {
        lemma_applied_single(row, x, place, (count - 1) as nat);
        lemma_zero(x[count - 1]);
        lemma_commutes(0int as real, x[count - 1]);
    }
}

/// The equality rows of an inverse-kinematics program put pinned joints on their targets: a
/// step satisfies the row of a joint exactly where it leads to the target, up to rounding.
pub proof fn lemma_pins_lead_to_their_targets(
    solve: IkSolve,
    program: QuadraticProgram,
    positions: Seq<Double>,
    evaluation: PoseEvaluation,
    r: int,
    x: Seq<real>,
)
    requires
        solve.equalities.well_formed(solve.n()),
        solve.models(program, positions, evaluation),
        0 <= r < solve.equalities.joints@.len(),
        x.len() == solve.n(),
        within(positions[solve.equalities.joints@[r] as int], 1000000000int as real),
        within(solve.equalities.targets@[r], 1000000000int as real),
    ensures
        ({
            let joint = solve.equalities.joints@[r] as int;
            let target = solve.equalities.targets@[r];
            &&& applied(program.a_eq@[r], x, x.len()) == x[joint]
            &&& size(
                (value(positions[joint]) + x[joint] - value(target)) - (applied(
                    program.a_eq@[r],
                    x,
                    x.len(),
                ) - value(program.b_eq@[r])),
            ) <= bound_rounding(target, positions[joint])
        }),
{
    let joint = solve.equalities.joints@[r] as int;
    lemma_bound_from_here(solve.equalities.targets@[r], positions[joint]);
    lemma_value_of_one();
    lemma_value_of_zero(Double { bits: 0 });
    lemma_applied_single(program.a_eq@[r], x, joint, x.len());
    lemma_one(x[joint]);
    lemma_commutes(1int as real, x[joint]);
}

} // verus!
